//! Physical memory manager: the frame table.
//!
//! A `FrameAllocator` keeps one bit per physical frame, packed into 64-bit
//! words; a set bit means the frame is allocated or otherwise unavailable.
//! The table is sized up to a whole number of words and of pages, so the bits
//! past the real frame count exist but must never be handed out: they are set
//! once at construction (the sentinel) and every operation leaves them set.
//!
//! Construction is self-hosting: the table picks a page-aligned free region
//! big enough to hold its own bitmap and marks that region's frames allocated
//! in the very table it just created.

use vstd::arithmetic::div_mod::{
    lemma_fundamental_div_mod,
    lemma_fundamental_div_mod_converse,
};
use vstd::prelude::*;

use crate::addr::{Address, Frame};
use crate::bits::{bit64, bit_clear, bit_set, bit_test, lemma_bit_full};
use crate::constants::PAGE_SIZE;

verus! {

/// What a frame-table operation can fail with.
#[derive(Debug, Clone, Copy, PartialEq, Eq)]
pub enum Error {
    /// There are not enough free frames to satisfy the request.
    NoneFree,
    /// Given alignment is invalid (e.g. not a power-of-two).
    InvalidAlignment,
    /// The provided frame index was out of bounds of the frame table.
    OutOfBounds,
    /// Attempted to lock a frame that wasn't free.
    NotFree,
    /// Attempted to free a frame that wasn't locked.
    NotLocked,
    /// The frame's kind did not match the expected one.
    TypeMismatch,
    /// No better description applies.
    Unknown,
}

/// The frame table could not be built from the boot memory map.
#[derive(Debug, Clone, Copy)]
pub struct InitError;

/// The kind of a physical memory region, as the boot memory map reports it.
/// The table itself does not store kinds; callers track them.
#[derive(Debug, Clone, Copy, PartialEq, Eq)]
pub enum Kind {
    Unusable,
    Generic,
    Reserved,
    BootReclaim,
    AcpiReclaim,
}

impl Kind {
    /// The numeric code of this kind.
    pub fn code(self) -> (r: u8)
        ensures
            r == self.spec_code(),
    {
        match self {
            Kind::Unusable => 0,
            Kind::Generic => 1,
            Kind::Reserved => 2,
            Kind::BootReclaim => 3,
            Kind::AcpiReclaim => 4,
        }
    }

    /// The numeric code of this kind.
    pub open spec fn spec_code(self) -> u8 {
        match self {
            Kind::Unusable => 0,
            Kind::Generic => 1,
            Kind::Reserved => 2,
            Kind::BootReclaim => 3,
            Kind::AcpiReclaim => 4,
        }
    }

    /// The kind with the given numeric code, if any.
    pub fn from_code(value: u8) -> (r: Option<Kind>)
        ensures
            value <= 4 ==> (r matches Some(k) && k.spec_code() == value),
            value > 4 ==> r is None,
    {
        match value {
            0 => Some(Kind::Unusable),
            1 => Some(Kind::Generic),
            2 => Some(Kind::Reserved),
            3 => Some(Kind::BootReclaim),
            4 => Some(Kind::AcpiReclaim),
            _ => None,
        }
    }
}

/// A half-open range `[start, end)` of free physical memory, from the boot
/// memory map.
#[derive(Debug, Clone, Copy, PartialEq, Eq, Structural)]
pub struct MemoryRegion {
    pub start: usize,
    pub end: usize,
}

/// One entry of a boot memory map: a page-aligned run of physical pages and
/// whether the firmware wants it kept out of the general allocator.
#[derive(Debug, Clone, Copy, PartialEq, Eq, Structural)]
pub struct MemoryDescriptor {
    pub phys_start: usize,
    pub page_count: usize,
    pub reserve: bool,
}

/// The frame table: one bit per physical frame, set means allocated.
pub struct FrameAllocator {
    words: Vec<u64>,
    total_frames: usize,
}

/// Number of frames that `total_memory` bytes of physical memory hold.
pub open spec fn spec_frame_count(total_memory: int) -> int {
    total_memory / PAGE_SIZE as int
}

/// Number of 64-bit words the bitmap needs for that much memory.
pub open spec fn spec_word_count(total_memory: int) -> int {
    (spec_frame_count(total_memory) + 63) / 64
}

/// Bytes of the bitmap's own storage, rounded up to whole pages.
pub open spec fn spec_table_bytes(total_memory: int) -> int {
    ((spec_word_count(total_memory) * 8 + (PAGE_SIZE - 1)) / PAGE_SIZE as int) * PAGE_SIZE
}

/// Whether a free region can host the bitmap: page-aligned, within the
/// described memory, and big enough.
pub open spec fn spec_region_hosts_table(r: MemoryRegion, total_memory: int) -> bool {
    &&& r.start as int % PAGE_SIZE as int == 0
    &&& r.start <= r.end
    &&& r.end <= total_memory
    &&& r.end - r.start >= spec_table_bytes(total_memory)
}

/// Whether the bitmap for that much memory fits in the address space at all.
pub open spec fn spec_table_addressable(total_memory: int) -> bool {
    spec_word_count(total_memory) * 64 * PAGE_SIZE <= usize::MAX
}

/// Whether frame `j` belongs to the bitmap's own storage when the bitmap is
/// hosted at the start of region `r`.
pub open spec fn spec_table_frame(r: MemoryRegion, total_memory: int, j: int) -> bool {
    r.start as int / PAGE_SIZE as int <= j < r.start as int / PAGE_SIZE as int + spec_table_bytes(total_memory)
        / PAGE_SIZE as int
}

/// Whether a reserved, page-aligned boot descriptor covers frame `j`.
pub open spec fn spec_descriptor_covers(d: MemoryDescriptor, j: int) -> bool {
    &&& d.reserve
    &&& d.phys_start as int % PAGE_SIZE as int == 0
    &&& d.phys_start as int / PAGE_SIZE as int <= j < d.phys_start as int / PAGE_SIZE as int + d.page_count
}

impl FrameAllocator {
    /// Bit capacity of the table; at least the frame count, rounded up to
    /// whole words and whole pages of table storage.
    pub closed spec fn capacity(self) -> int {
        self.words@.len() * 64int
    }

    /// Number of real physical frames the table covers.
    pub closed spec fn frames(self) -> int {
        self.total_frames as int
    }

    /// Whether frame `i` is marked allocated.
    pub closed spec fn is_set(self, i: int) -> bool {
        bit64(self.words@[i / 64], i % 64)
    }

    /// Well-formedness: the capacity covers all frames, the whole table fits
    /// in the address space, and every bit past the real frame count is set.
    pub closed spec fn wf(self) -> bool {
        &&& self.total_frames <= self.capacity()
        &&& self.capacity() * PAGE_SIZE <= usize::MAX
        &&& forall|i: int| self.frames() <= i < self.capacity() ==> self.is_set(i)
    }


    /// `x <= bound / d` says exactly that `x * d` stays within `bound`.
    pub proof fn lemma_mul_bound(x: int, d: int, bound: int)
        requires
            x >= 0,
            d >= 1,
            bound >= 0,
        ensures
            (x <= bound / d) == (x * d <= bound),
    {
        lemma_fundamental_div_mod(bound, d);
        if x <= bound / d {
            assert(x * d <= (bound / d) * d) by (nonlinear_arith)
                requires
                    x <= bound / d,
                    d >= 1,
            ;
            assert((bound / d) * d == d * (bound / d)) by (nonlinear_arith);
        }
        if x * d <= bound && x > bound / d {
            assert((bound / d + 1) * d <= x * d) by (nonlinear_arith)
                requires
                    bound / d + 1 <= x,
                    d >= 1,
            ;
            assert((bound / d + 1) * d == d * (bound / d) + d) by (nonlinear_arith);
        }
    }

    /// Build the frame table over `total_memory` bytes of physical memory,
    /// whose free regions are listed in `free_regions`. The table is
    /// self-hosting: it picks the first page-aligned free region big enough
    /// to hold its own bitmap, and marks that region's frames allocated in
    /// the table it just built. Every bit past the real frame count is set
    /// once as a sentinel. `None` when no region can host the bitmap, or the
    /// bitmap itself would not fit the address space.
    pub fn new(free_regions: &Vec<MemoryRegion>, total_memory: usize) -> (r: Option<
        FrameAllocator,
    >)
        ensures
            match r {
                Some(a) => {
                    &&& a.wf()
                    &&& spec_table_addressable(total_memory as int)
                    &&& a.frames() == spec_frame_count(total_memory as int)
                    &&& a.capacity() == spec_word_count(total_memory as int) * 64
                    &&& exists|k: int|
                        {
                            &&& 0 <= k < free_regions@.len()
                            &&& #[trigger] spec_region_hosts_table(
                                free_regions@[k],
                                total_memory as int,
                            )
                            &&& forall|m: int|
                                0 <= m < k ==> !spec_region_hosts_table(
                                    free_regions@[m],
                                    total_memory as int,
                                )
                            &&& forall|i: int|
                                0 <= i < a.frames() ==> a.is_set(i) == spec_table_frame(
                                    free_regions@[k],
                                    total_memory as int,
                                    i,
                                )
                        }
                },
                None => !spec_table_addressable(total_memory as int) || forall|k: int|
                    0 <= k < free_regions@.len() ==> !spec_region_hosts_table(
                        free_regions@[k],
                        total_memory as int,
                    ),
            },
    {
        let ghost tm = total_memory as int;
        proof {
            vstd::arithmetic::div_mod::lemma_div_is_ordered(
                total_memory as int,
                usize::MAX as int,
                PAGE_SIZE as int,
            );
        }
        let total_frames = total_memory / 4096;
        let words_len = (total_frames + 63) / 64;
        if words_len > usize::MAX / 262144 {
            proof {
                Self::lemma_mul_bound(words_len as int, 262144, usize::MAX as int);
                assert(spec_word_count(tm) * 64 * PAGE_SIZE == spec_word_count(tm) * 262144)
                    by (nonlinear_arith);
            }
            return None;
        }
        proof {
            Self::lemma_mul_bound(words_len as int, 262144, usize::MAX as int);
            assert(spec_word_count(tm) * 64 * PAGE_SIZE == spec_word_count(tm) * 262144)
                by (nonlinear_arith);
            if words_len >= 1 {
                assert(words_len * 8 + 4095 <= words_len * 262144) by (nonlinear_arith)
                    requires
                        words_len >= 1,
                ;
            }
        }
        let table_size_in_frames = (words_len * 8 + 4095) / 4096;
        proof {
            lemma_fundamental_div_mod(words_len as int * 8 + 4095, PAGE_SIZE as int);
        }
        let table_bytes = table_size_in_frames * 4096;
        let sel = match Self::select_host_region(free_regions, total_memory, table_bytes) {
            None => {
                return None;
            },
            Some(k) => free_regions[k],
        };
        let mut table = FrameAllocator { words: vec![0u64; words_len], total_frames };
        proof {
            assert(table.capacity() == words_len * 64);
            assert(total_frames <= table.capacity()) by {
                lemma_fundamental_div_mod(total_frames as int + 63, 64);
                assert((spec_word_count(tm)) * 64 == 64 * (spec_word_count(tm)))
                    by (nonlinear_arith);
            }
            assert(table.capacity() * PAGE_SIZE <= usize::MAX) by {
                assert(words_len as int * 64 * PAGE_SIZE == words_len as int * 262144)
                    by (nonlinear_arith);
            }
            assert forall|j: int| 0 <= j < table.capacity() implies !table.is_set(j) by {
                crate::bits::lemma_bit_index_split(j);
                assert(j / 64 < table.words@.len()) by (nonlinear_arith)
                    requires
                        (j / 64) * 64 + j % 64 < table.words@.len() * 64,
                        0 <= j % 64 < 64,
                        0 <= j / 64,
                ;
                crate::bits::lemma_bit_zero(j % 64);
            }
        }
        // Sentinel: bits past the real frame count must never be handed out.
        let cap = table.words.len() * 64;
        let mut i = total_frames;
        while i < cap
            invariant
                table.capacity() == cap,
                table.frames() == total_frames,
                total_frames <= i <= cap,
                cap * PAGE_SIZE <= usize::MAX,
                forall|j: int|
                    0 <= j < cap ==> table.is_set(j) == (total_frames <= j < i),
            decreases cap - i,
        {
            table.set_bit(i);
            i += 1;
        }
        // The table's own storage: mark it allocated in the table itself.
        let ledger_start = sel.start / 4096;
        proof {
            lemma_fundamental_div_mod(sel.start as int, PAGE_SIZE as int);
            lemma_fundamental_div_mod_converse(
                sel.start as int + table_bytes as int,
                PAGE_SIZE as int,
                ledger_start as int + table_size_in_frames as int,
                0,
            );
            vstd::arithmetic::div_mod::lemma_div_is_ordered(
                sel.start as int + table_bytes as int,
                tm,
                PAGE_SIZE as int,
            );
            lemma_fundamental_div_mod_converse(
                table_bytes as int,
                PAGE_SIZE as int,
                table_size_in_frames as int,
                0,
            );
        }
        let ledger_end = ledger_start + table_size_in_frames;
        let mut f = ledger_start;
        while f < ledger_end
            invariant
                table.capacity() == cap,
                table.frames() == total_frames,
                ledger_start <= f <= ledger_end,
                ledger_end <= total_frames,
                total_frames <= cap,
                cap * PAGE_SIZE <= usize::MAX,
                forall|j: int|
                    0 <= j < cap ==> table.is_set(j) == (total_frames <= j || (ledger_start <= j
                        < f)),
            decreases ledger_end - f,
        {
            table.set_bit(f);
            f += 1;
        }
        Some(table)
    }

    /// The first free region that can host the table's own bitmap.
    fn select_host_region(
        free_regions: &Vec<MemoryRegion>,
        total_memory: usize,
        table_bytes: usize,
    ) -> (r: Option<usize>)
        requires
            table_bytes == spec_table_bytes(total_memory as int),
        ensures
            match r {
                Some(k) => {
                    &&& k < free_regions@.len()
                    &&& spec_region_hosts_table(free_regions@[k as int], total_memory as int)
                    &&& forall|m: int|
                        0 <= m < k ==> !spec_region_hosts_table(
                            free_regions@[m],
                            total_memory as int,
                        )
                },
                None => forall|m: int|
                    0 <= m < free_regions@.len() ==> !spec_region_hosts_table(
                        free_regions@[m],
                        total_memory as int,
                    ),
            },
    {
        let mut k: usize = 0;
        while k < free_regions.len()
            invariant
                k <= free_regions@.len(),
                table_bytes == spec_table_bytes(total_memory as int),
                forall|m: int|
                    0 <= m < k ==> !spec_region_hosts_table(free_regions@[m], total_memory as int),
            decreases free_regions@.len() - k,
        {
            let r = free_regions[k];
            if r.start % 4096 == 0 && r.start <= r.end && r.end <= total_memory && r.end - r.start
                >= table_bytes {
                return Some(k);
            }
            k += 1;
        }
        None
    }

    /// Walk a boot memory map and lock every frame of every page-aligned
    /// descriptor that asks to be reserved; unaligned descriptors are
    /// skipped. Frames appearing in several descriptors are simply set again.
    pub fn reserve_system_frames(&mut self, memory_map: &Vec<MemoryDescriptor>)
        requires
            old(self).wf(),
            forall|k: int|
                0 <= k < memory_map@.len() && (#[trigger] memory_map@[k]).reserve
                    && memory_map@[k].phys_start as int % PAGE_SIZE as int == 0
                    ==> memory_map@[k].phys_start as int / PAGE_SIZE as int + memory_map@[k].page_count
                    <= old(self).capacity(),
        ensures
            final(self).wf(),
            final(self).capacity() == old(self).capacity(),
            final(self).frames() == old(self).frames(),
            forall|j: int|
                0 <= j < final(self).capacity() ==> final(self).is_set(j) == (old(self).is_set(j)
                    || exists|k: int|
                    0 <= k < memory_map@.len() && spec_descriptor_covers(
                        #[trigger] memory_map@[k],
                        j,
                    )),
    {
        let mut d: usize = 0;
        while d < memory_map.len()
            invariant
                old(self).wf(),
                self.wf(),
                d <= memory_map@.len(),
                self.capacity() == old(self).capacity(),
                self.frames() == old(self).frames(),
                forall|k: int|
                    0 <= k < memory_map@.len() && (#[trigger] memory_map@[k]).reserve
                        && memory_map@[k].phys_start as int % PAGE_SIZE as int == 0
                        ==> memory_map@[k].phys_start as int / PAGE_SIZE as int
                        + memory_map@[k].page_count <= old(self).capacity(),
                forall|j: int|
                    0 <= j < self.capacity() ==> self.is_set(j) == (old(self).is_set(j) || exists|
                        k: int,
                    | 0 <= k < d && spec_descriptor_covers(#[trigger] memory_map@[k], j)),
            decreases memory_map@.len() - d,
        {
            let desc = memory_map[d];
            if desc.reserve && desc.phys_start % 4096 == 0 {
                let ghost snap = *self;
                let start = desc.phys_start / 4096;
                let end = start + desc.page_count;
                let mut f = start;
                while f < end
                    invariant
                        snap.wf(),
                        self.wf(),
                        start <= f <= end,
                        end <= snap.capacity(),
                        self.capacity() == snap.capacity(),
                        self.frames() == snap.frames(),
                        forall|j: int|
                            0 <= j < self.capacity() ==> self.is_set(j) == (snap.is_set(j) || (
                            start <= j < f)),
                    decreases end - f,
                {
                    self.set_bit(f);
                    f += 1;
                }
                proof {
                    Self::lemma_fold_descriptor(*old(self), snap, *self, memory_map@, d as int);
                }
            } else {
                proof {
                    assert forall|j: int| 0 <= j < self.capacity() implies self.is_set(j) == (old(
                        self,
                    ).is_set(j) || exists|k: int|
                        0 <= k < d + 1 && spec_descriptor_covers(#[trigger] memory_map@[k], j)) by {
                        if exists|k: int|
                            0 <= k < d + 1 && spec_descriptor_covers(#[trigger] memory_map@[k], j) {
                            let k = choose|k: int|
                                0 <= k < d + 1 && spec_descriptor_covers(
                                    #[trigger] memory_map@[k],
                                    j,
                                );
                            assert(k < d || k == d);
                        }
                    }
                }
            }
            d += 1;
        }
    }

    /// Folding one processed descriptor into the running "covered so far"
    /// account of `reserve_system_frames`.
    proof fn lemma_fold_descriptor(
        orig: FrameAllocator,
        snap: FrameAllocator,
        now: FrameAllocator,
        map: Seq<MemoryDescriptor>,
        d: int,
    )
        requires
            0 <= d < map.len(),
            map[d].reserve,
            map[d].phys_start as int % PAGE_SIZE as int == 0,
            now.capacity() == snap.capacity(),
            snap.capacity() == orig.capacity(),
            forall|j: int|
                0 <= j < snap.capacity() ==> snap.is_set(j) == (orig.is_set(j) || exists|k: int|
                    0 <= k < d && spec_descriptor_covers(#[trigger] map[k], j)),
            forall|j: int|
                0 <= j < now.capacity() ==> now.is_set(j) == (snap.is_set(j) || (map[d].phys_start as int
                    / PAGE_SIZE as int <= j < map[d].phys_start as int / PAGE_SIZE as int
                    + map[d].page_count)),
        ensures
            forall|j: int|
                0 <= j < now.capacity() ==> now.is_set(j) == (orig.is_set(j) || exists|k: int|
                    0 <= k < d + 1 && spec_descriptor_covers(#[trigger] map[k], j)),
    {
        assert forall|j: int| 0 <= j < now.capacity() implies now.is_set(j) == (orig.is_set(j)
            || exists|k: int| 0 <= k < d + 1 && spec_descriptor_covers(#[trigger] map[k], j)) by {
            if now.is_set(j) {
                if !snap.is_set(j) {
                    assert(spec_descriptor_covers(map[d], j));
                } else if !orig.is_set(j) {
                    let k = choose|k: int|
                        0 <= k < d && spec_descriptor_covers(#[trigger] map[k], j);
                    assert(0 <= k < d + 1 && spec_descriptor_covers(map[k], j));
                }
            } else {
                if exists|k: int| 0 <= k < d + 1 && spec_descriptor_covers(#[trigger] map[k], j) {
                    let k = choose|k: int|
                        0 <= k < d + 1 && spec_descriptor_covers(#[trigger] map[k], j);
                    if k < d {
                        assert(snap.is_set(j));
                    } else {
                        assert(spec_descriptor_covers(map[d], j));
                        assert(now.is_set(j));
                    }
                }
            }
        }
    }

    /// Number of real physical frames the table covers.
    pub fn frame_count(&self) -> (r: usize)
        ensures
            r == self.frames(),
    {
        self.total_frames
    }

    /// Bounds that well-formedness guarantees, for callers that cannot see
    /// into it.
    pub proof fn lemma_wf_bounds(&self)
        requires
            self.wf(),
        ensures
            self.frames() <= self.capacity(),
            self.capacity() * PAGE_SIZE <= usize::MAX,
            forall|i: int| self.frames() <= i < self.capacity() ==> self.is_set(i),
    {
    }

    /// A real frame's index names an address that fits the address space.
    pub proof fn lemma_frame_index_small(i: int, a: FrameAllocator)
        requires
            a.wf(),
            0 <= i < a.frames(),
        ensures
            i * PAGE_SIZE + PAGE_SIZE <= usize::MAX,
            i <= usize::MAX / PAGE_SIZE,
    {
        Self::lemma_index_fits(i, a.capacity());
    }

    /// Bit capacity of the table, in frames.
    pub fn capacity_frames(&self) -> (r: usize)
        requires
            self.wf(),
        ensures
            r == self.capacity(),
    {
        proof {
            assert(self.capacity() <= self.capacity() * PAGE_SIZE) by (nonlinear_arith)
                requires
                    self.capacity() >= 0,
                    PAGE_SIZE >= 1,
            ;
        }
        self.words.len() * 64
    }

    /// Total physical memory the table describes, counted over its whole bit
    /// capacity, in bytes.
    pub fn total_memory(&self) -> (r: usize)
        requires
            self.wf(),
        ensures
            r == self.capacity() * PAGE_SIZE,
    {
        let cap = self.capacity_frames();
        cap * 4096
    }

    /// Whether frame `index` is marked allocated.
    fn get_bit(&self, index: usize) -> (r: bool)
        requires
            index < self.capacity(),
        ensures
            r == self.is_set(index as int),
    {
        proof {
            crate::bits::lemma_bit_index_split(index as int);
            assert((index as int / 64) * 64 < self.words@.len() * 64 ==> index as int / 64
                < self.words@.len()) by (nonlinear_arith);
        }
        let w = self.words[index / 64];
        bit_test(w, (index % 64) as u64)
    }

    /// Mark frame `index` allocated; every other bit keeps its value.
    fn set_bit(&mut self, index: usize)
        requires
            index < old(self).capacity(),
        ensures
            final(self).capacity() == old(self).capacity(),
            final(self).frames() == old(self).frames(),
            forall|j: int|
                0 <= j < final(self).capacity() ==> final(self).is_set(j) == (old(self).is_set(j) || j
                    == index as int),
            old(self).wf() ==> final(self).wf(),
    {
        proof {
            crate::bits::lemma_bit_index_split(index as int);
            assert((index as int / 64) * 64 < self.words@.len() * 64 ==> index as int / 64
                < self.words@.len()) by (nonlinear_arith);
        }
        let wi = index / 64;
        let w = self.words[wi];
        self.words[wi] = bit_set(w, (index % 64) as u64);
        proof {
            assert forall|j: int| 0 <= j < self.capacity() implies self.is_set(j) == (old(
                self,
            ).is_set(j) || j == index as int) by {
                crate::bits::lemma_bit_index_split(j);
                assert(j / 64 < self.words@.len()) by (nonlinear_arith)
                    requires
                        (j / 64) * 64 + j % 64 < self.words@.len() * 64,
                        0 <= j % 64 < 64,
                        0 <= j / 64,
                ;
                if j / 64 == wi as int {
                    if j % 64 == index as int % 64 {
                        assert(j == index as int);
                    } else {
                        assert(j != index as int);
                    }
                } else {
                    assert(j != index as int);
                    assert(self.words@[j / 64] == old(self).words@[j / 64]);
                }
            }
        }
    }

    /// Mark frame `index` free; every other bit keeps its value.
    fn clear_bit(&mut self, index: usize)
        requires
            index < old(self).capacity(),
        ensures
            final(self).capacity() == old(self).capacity(),
            final(self).frames() == old(self).frames(),
            forall|j: int|
                0 <= j < final(self).capacity() ==> final(self).is_set(j) == (old(self).is_set(j) && j
                    != index as int),
    {
        proof {
            crate::bits::lemma_bit_index_split(index as int);
            assert((index as int / 64) * 64 < self.words@.len() * 64 ==> index as int / 64
                < self.words@.len()) by (nonlinear_arith);
        }
        let wi = index / 64;
        let w = self.words[wi];
        self.words[wi] = bit_clear(w, (index % 64) as u64);
        proof {
            assert forall|j: int| 0 <= j < self.capacity() implies self.is_set(j) == (old(
                self,
            ).is_set(j) && j != index as int) by {
                crate::bits::lemma_bit_index_split(j);
                assert(j / 64 < self.words@.len()) by (nonlinear_arith)
                    requires
                        (j / 64) * 64 + j % 64 < self.words@.len() * 64,
                        0 <= j % 64 < 64,
                        0 <= j / 64,
                ;
                if j / 64 == wi as int {
                    if j % 64 == index as int % 64 {
                        assert(j == index as int);
                    } else {
                        assert(j != index as int);
                    }
                } else {
                    assert(j != index as int);
                    assert(self.words@[j / 64] == old(self).words@[j / 64]);
                }
            }
        }
    }

    /// Find the lowest set bit in `[start, end)`, if any.
    fn first_set_in(&self, start: usize, end: usize) -> (r: Option<usize>)
        requires
            self.wf(),
            start <= end,
            end <= self.capacity(),
        ensures
            match r {
                Some(k) => start <= k < end && self.is_set(k as int) && forall|m: int|
                    start <= m < k ==> !self.is_set(m),
                None => forall|m: int| start <= m < end ==> !self.is_set(m),
            },
    {
        let mut j = start;
        while j < end
            invariant
                self.wf(),
                start <= j <= end,
                end <= self.capacity(),
                forall|m: int| start <= m < j ==> !self.is_set(m),
            decreases end - j,
        {
            if self.get_bit(j) {
                return Some(j);
            }
            j += 1;
        }
        None
    }



    /// Find the lowest `stride`-aligned run of `count` clear bits: a first-fit
    /// scan, word-at-a-time where the stride allows it.
    fn find_run(&self, count: usize, stride: usize) -> (r: Option<usize>)
        requires
            self.wf(),
            count >= 1,
            stride >= 1,
        ensures
            match r {
                Some(s) => {
                    &&& s % stride == 0
                    &&& s + count <= self.capacity()
                    &&& forall|j: int| s <= j < s + count ==> !self.is_set(j)
                    &&& forall|t: int|
                        0 <= t < s && #[trigger] (t % (stride as int)) == 0 ==> exists|j: int|
                            t <= j < t + count && self.is_set(j)
                },
                None => forall|t: int|
                    0 <= t && #[trigger] (t % (stride as int)) == 0 && t + count <= self.capacity()
                        ==> exists|j: int| t <= j < t + count && self.is_set(j),
            },
    {
        let cap = self.capacity_frames();
        if count > cap {
            return None;
        }
        let mut s: usize = 0;
        loop
            invariant
                self.wf(),
                cap == self.capacity(),
                1 <= count <= cap,
                stride >= 1,
                s <= cap,
                s % stride == 0,
                forall|t: int|
                    0 <= t < s && #[trigger] (t % (stride as int)) == 0 ==> exists|j: int|
                        t <= j < t + count && #[trigger] self.is_set(j),
            ensures
                s % stride == 0,
                forall|t: int|
                    0 <= t < s && #[trigger] (t % (stride as int)) == 0 ==> exists|j: int|
                        t <= j < t + count && #[trigger] self.is_set(j),
                s + count > cap,
            decreases cap - s,
        {
            if s > cap - count {
                break;
            }
            // Word-level skip: with no alignment constraint, a full word
            // blocks every window that starts inside it.
            if stride == 1 && s % 64 == 0 && cap - s >= 64 {
                let w = self.words[s / 64];
                if w == u64::MAX {
                    proof {
                        assert forall|t: int|
                            s <= t < s + 64 && #[trigger] (t % (stride as int)) == 0 implies exists|
                            j: int,
                        | t <= j < t + count && self.is_set(j) by {
                            lemma_fundamental_div_mod_converse(t, 64, s as int / 64, t - s);
                            lemma_bit_full(t % 64);
                            assert(t <= t < t + count && self.is_set(t));
                        }
                    }
                    proof {
                        assert((s as int + 64) % (stride as int) == 0) by (nonlinear_arith)
                            requires
                                stride == 1usize,
                        ;
                    }
                    s += 64;
                    continue;
                }
            }
            match self.first_set_in(s, s + count) {
                None => {
                    return Some(s);
                },
                Some(k) => {
                    proof {
                        assert forall|t: int|
                            s <= t < s + stride && #[trigger] (t % (stride as int)) == 0
                            implies exists|j: int| t <= j < t + count && self.is_set(
                            j,
                        ) by {
                            crate::bits::lemma_unique_multiple(s as int, t, stride as int);
                            assert(self.is_set(k as int));
                        }
                    }
                    if stride > cap - count || s > cap - count - stride {
                        proof {
                            assert forall|t: int|
                                0 <= t < s + stride && #[trigger] (t % (stride as int)) == 0 && t
                                    + count <= cap implies exists|j: int|
                                t <= j < t + count && self.is_set(j) by {}
                        }
                        return None;
                    }
                    proof {
                        crate::bits::lemma_step_multiple(s as int, stride as int);
                    }
                    s += stride;
                },
            }
        }
        None
    }

    /// Find the lowest-indexed clear bit, mark it allocated, and return its
    /// frame. Fails with `NoneFree` when every frame is allocated.
    pub fn next_frame(&mut self) -> (r: Result<Address<Frame>, Error>)
        requires
            old(self).wf(),
        ensures
            final(self).wf(),
            final(self).capacity() == old(self).capacity(),
            final(self).frames() == old(self).frames(),
            match r {
                Ok(addr) => {
                    let i = addr.spec_get() as int / PAGE_SIZE as int;
                    &&& addr.spec_get() == i * PAGE_SIZE
                    &&& next_frame_step(*old(self), *final(self), i)
                },
                Err(e) => {
                    &&& e == Error::NoneFree
                    &&& forall|j: int|
                        0 <= j < old(self).capacity() ==> #[trigger] old(self).is_set(j)
                    &&& forall|j: int|
                        0 <= j < final(self).capacity() ==> final(self).is_set(j) == old(
                            self,
                        ).is_set(j)
                },
            },
    {
        match self.find_run(1, 1) {
            None => {
                proof {
                    assert forall|j: int| 0 <= j < self.capacity() implies self.is_set(j) by {
                        assert((j % 1int) == 0) by (nonlinear_arith);
                        assert(exists|k: int| j <= k < j + 1 && self.is_set(k));
                        let k = choose|k: int| j <= k < j + 1 && self.is_set(k);
                        assert(k == j);
                    }
                }
                Err(Error::NoneFree)
            },
            Some(i) => {
                proof {
                    assert(!self.is_set(i as int));
                    if i as int >= self.frames() {
                        assert(self.is_set(i as int));
                    }
                    Self::lemma_index_fits(i as int, self.capacity());
                    assert forall|j: int| 0 <= j < i implies self.is_set(j) by {
                        assert((j % 1int) == 0) by (nonlinear_arith);
                        assert(exists|k: int| j <= k < j + 1 && self.is_set(k));
                        let k = choose|k: int| j <= k < j + 1 && self.is_set(k);
                        assert(k == j);
                    }
                }
                self.set_bit(i);
                let addr = Address::<Frame>::from_index(i).unwrap();
                proof {
                    vstd::arithmetic::div_mod::lemma_fundamental_div_mod_converse_div(
                        addr.spec_get() as int,
                        PAGE_SIZE as int,
                        i as int,
                        0,
                    );
                }
                Ok(addr)
            },
        }
    }

    /// A frame index below the capacity names an address that fits.
    proof fn lemma_index_fits(i: int, cap: int)
        requires
            0 <= i < cap,
            cap * PAGE_SIZE <= usize::MAX,
        ensures
            i * PAGE_SIZE + PAGE_SIZE <= usize::MAX,
            i <= usize::MAX / PAGE_SIZE,
    {
        assert((i + 1) * PAGE_SIZE <= cap * PAGE_SIZE) by (nonlinear_arith)
            requires
                i + 1 <= cap,
                PAGE_SIZE >= 1,
        ;
        assert(i * PAGE_SIZE + PAGE_SIZE == (i + 1) * PAGE_SIZE) by (nonlinear_arith);
        lemma_fundamental_div_mod(usize::MAX as int, PAGE_SIZE as int);
        if i > usize::MAX as int / PAGE_SIZE as int {
            assert((usize::MAX as int / PAGE_SIZE as int + 1) * PAGE_SIZE <= i * PAGE_SIZE)
                by (nonlinear_arith)
                requires
                    usize::MAX as int / PAGE_SIZE as int + 1 <= i,
                    PAGE_SIZE >= 1,
            ;
        }
    }

    /// Find the lowest-indexed run of `count` consecutive clear bits whose
    /// start is a multiple of the alignment stride, mark the whole run
    /// allocated, and return its first frame. `None` for the alignment means
    /// a stride of one. Fails with `NoneFree` when no such run exists; no
    /// partial run is ever marked.
    #[verifier::rlimit(60)]
    pub fn next_frames(&mut self, count: usize, align: Option<usize>) -> (r: Result<
        Address<Frame>,
        Error,
    >)
        requires
            old(self).wf(),
            count >= 1,
            align matches Some(a) ==> a >= 1,
        ensures
            final(self).wf(),
            final(self).capacity() == old(self).capacity(),
            final(self).frames() == old(self).frames(),
            match r {
                Ok(addr) => {
                    let i = addr.spec_get() as int / PAGE_SIZE as int;
                    &&& addr.spec_get() == i * PAGE_SIZE
                    &&& next_frames_step(*old(self), *final(self), i, count as int, align_stride(align))
                },
                Err(e) => {
                    &&& e == Error::NoneFree
                    &&& forall|t: int|
                        0 <= t && #[trigger] (t % align_stride(align)) == 0 && t + count <= old(self).capacity()
                            ==> exists|j: int| t <= j < t + count && old(self).is_set(j)
                    &&& forall|j: int|
                        0 <= j < final(self).capacity() ==> final(self).is_set(j) == old(
                            self,
                        ).is_set(j)
                },
            },
    {
        let stride: usize = match align {
            None => 1,
            Some(a) => a,
        };
        match self.find_run(count, stride) {
            None => Err(Error::NoneFree),
            Some(s) => {
                let ghost pre = *self;
                let mut k = s;
                while k < s + count
                    invariant
                        pre.wf(),
                        s <= k <= s + count,
                        s + count <= pre.capacity(),
                        self.capacity() == pre.capacity(),
                        self.frames() == pre.frames(),
                        forall|j: int|
                            0 <= j < self.capacity() ==> #[trigger] self.is_set(j) == (pre.is_set(j)
                                || (s <= j < k)),
                        self.wf(),
                    decreases s + count - k,
                {
                    self.set_bit(k);
                    k += 1;
                }
                proof {
                    assert(stride as int == align_stride(align));
                    assert(!pre.is_set(s + count - 1));
                    if s + count - 1 >= pre.frames() {
                        assert(pre.is_set(s + count - 1));
                    }
                    Self::lemma_index_fits(s as int, self.capacity());
                }
                let addr = Address::<Frame>::from_index(s).unwrap();
                proof {
                    vstd::arithmetic::div_mod::lemma_fundamental_div_mod_converse_div(
                        addr.spec_get() as int,
                        PAGE_SIZE as int,
                        s as int,
                        0,
                    );
                    assert forall|t: int|
                        0 <= t < s && #[trigger] (t % align_stride(align)) == 0 implies exists|
                        j: int,
                    | t <= j < t + count && pre.is_set(j) by {
                        assert(t % (stride as int) == 0);
                    }
                    assert(k == s + count);
                    let sv: int = s as int;
                    let cv: int = count as int;
                    assert forall|j: int| 0 <= j < self.capacity() implies #[trigger] self.is_set(
                        j,
                    ) == (pre.is_set(j) || (sv <= j < sv + cv)) by {
                        assert(self.is_set(j) == (pre.is_set(j) || (s <= j < k)));
                    }
                    Self::lemma_assemble_run_step(
                        pre,
                        *self,
                        sv,
                        addr.spec_get() as int / PAGE_SIZE as int,
                        cv,
                        align_stride(align),
                    );
                }
                Ok(addr)
            },
        }
    }

    /// The facts gathered over a marked run, restated as one step relation.
    proof fn lemma_assemble_run_step(
        pre: FrameAllocator,
        post: FrameAllocator,
        s: int,
        i: int,
        count: int,
        stride: int,
    )
        requires
            i == s,
            0 <= s,
            s + count <= pre.frames(),
            s % stride == 0,
            forall|j: int| s <= j < s + count ==> !pre.is_set(j),
            forall|t: int|
                0 <= t < s && #[trigger] (t % stride) == 0 ==> exists|j: int|
                    t <= j < t + count && pre.is_set(j),
            post.capacity() == pre.capacity(),
            post.frames() == pre.frames(),
            forall|j: int|
                0 <= j < post.capacity() ==> post.is_set(j) == (pre.is_set(j) || (s <= j < s
                    + count)),
        ensures
            next_frames_step(pre, post, i, count, stride),
    {
    }

    /// Mark a specific, already-known frame (e.g. one a boot memory map
    /// names) as allocated. Setting an already-set bit is allowed and leaves
    /// it set.
    pub fn lock_frame(&mut self, address: Address<Frame>) -> (r: Result<(), Error>)
        requires
            old(self).wf(),
        ensures
            final(self).wf(),
            final(self).capacity() == old(self).capacity(),
            final(self).frames() == old(self).frames(),
            address.spec_get() / PAGE_SIZE < old(self).capacity() ==> {
                &&& r is Ok
                &&& forall|j: int|
                    0 <= j < final(self).capacity() ==> final(self).is_set(j) == (old(self).is_set(j) || j
                        == address.spec_get() / PAGE_SIZE)
            },
            address.spec_get() / PAGE_SIZE >= old(self).capacity() ==> {
                &&& r == Result::<(), Error>::Err(Error::OutOfBounds)
                &&& forall|j: int| 0 <= j < final(self).capacity() ==> final(self).is_set(j) == old(self).is_set(j)
            },
    {
        let index = address.index();
        let cap = self.capacity_frames();
        if index >= cap {
            return Err(Error::OutOfBounds);
        }
        self.set_bit(index);
        Ok(())
    }

    /// Mark a frame free again. Only real frames may be freed: the sentinel
    /// bits past the frame count stay set forever.
    pub fn free_frame(&mut self, address: Address<Frame>) -> (r: Result<(), Error>)
        requires
            old(self).wf(),
        ensures
            final(self).wf(),
            final(self).capacity() == old(self).capacity(),
            final(self).frames() == old(self).frames(),
            address.spec_get() / PAGE_SIZE < old(self).frames() ==> {
                &&& r is Ok
                &&& forall|j: int|
                    0 <= j < final(self).capacity() ==> final(self).is_set(j) == (old(self).is_set(j) && j
                        != address.spec_get() / PAGE_SIZE)
            },
            address.spec_get() / PAGE_SIZE >= old(self).frames() ==> {
                &&& r == Result::<(), Error>::Err(Error::OutOfBounds)
                &&& forall|j: int| 0 <= j < final(self).capacity() ==> final(self).is_set(j) == old(self).is_set(j)
            },
    {
        let index = address.index();
        if index >= self.total_frames {
            return Err(Error::OutOfBounds);
        }
        self.clear_bit(index);
        Ok(())
    }
}

/// The alignment stride that an optional alignment argument means.
pub open spec fn align_stride(align: Option<usize>) -> int {
    match align {
        None => 1,
        Some(a) => a as int,
    }
}

/// What one successful `next_frame` call does: it returns the lowest clear
/// bit, which was clear before and is set after, and touches nothing else.
pub open spec fn next_frame_step(pre: FrameAllocator, post: FrameAllocator, i: int) -> bool {
    &&& pre.frames() <= pre.capacity()
    &&& 0 <= i < pre.frames()
    &&& !pre.is_set(i)
    &&& forall|j: int| 0 <= j < i ==> pre.is_set(j)
    &&& post.capacity() == pre.capacity()
    &&& post.frames() == pre.frames()
    &&& forall|j: int| 0 <= j < post.capacity() ==> post.is_set(j) == (pre.is_set(j) || j == i)
}

/// What one successful `next_frames` call does: the run starts on the stride,
/// was entirely clear before, is entirely set after, nothing else changes,
/// and no earlier stride-aligned start had a clear run.
pub open spec fn next_frames_step(
    pre: FrameAllocator,
    post: FrameAllocator,
    i: int,
    count: int,
    stride: int,
) -> bool {
    &&& 0 <= i
    &&& i + count <= pre.frames()
    &&& i % stride == 0
    &&& forall|j: int| i <= j < i + count ==> !pre.is_set(j)
    &&& forall|t: int|
        0 <= t < i && #[trigger] (t % stride) == 0 ==> exists|j: int| t <= j < t + count && pre.is_set(j)
    &&& post.capacity() == pre.capacity()
    &&& post.frames() == pre.frames()
    &&& forall|j: int|
        0 <= j < post.capacity() ==> post.is_set(j) == (pre.is_set(j) || (i <= j < i + count))
}

/// A sequence of `next_frame` calls with no frees in between: `states` are
/// the table states, `results[k]` the frame index the `k`-th call returned.
pub open spec fn next_frame_chain(states: Seq<FrameAllocator>, results: Seq<int>) -> bool {
    &&& states.len() == results.len() + 1
    &&& forall|k: int|
        0 <= k < results.len() ==> #[trigger] next_frame_step(states[k], states[k + 1], results[k])
}

/// Along a chain of `next_frame` calls, a frame handed out earlier stays
/// marked allocated in every later state.
proof fn lemma_chain_set_persists(states: Seq<FrameAllocator>, results: Seq<int>, a: int, t: int)
    requires
        next_frame_chain(states, results),
        0 <= a < results.len(),
        a < t <= results.len(),
    ensures
        states[t].is_set(results[a]),
        states[t].capacity() == states[a].capacity(),
    decreases t,
{
    assert(next_frame_step(states[a], states[a + 1], results[a]));
    if t == a + 1 {
        assert(states[t].is_set(results[a]));
    } else {
        lemma_chain_set_persists(states, results, a, t - 1);
        let prev = t - 1;
        assert(next_frame_step(states[prev], states[prev + 1], results[prev]));
        assert(states[prev + 1] == states[t]);
    }
}

/// `next_frame` never hands out the same frame twice while nothing is freed:
/// along a chain of `next_frame` calls, all returned indices are distinct.
pub proof fn lemma_next_frame_results_distinct(
    states: Seq<FrameAllocator>,
    results: Seq<int>,
    a: int,
    b: int,
)
    requires
        next_frame_chain(states, results),
        0 <= a < b < results.len(),
    ensures
        results[a] != results[b],
{
    lemma_chain_set_persists(states, results, a, b);
    assert(next_frame_step(states[b], states[b + 1], results[b]));
}

/// A run of frames that are all marked allocated and a run that is entirely
/// clear cannot overlap: a freshly found clear run is disjoint from every
/// live allocation.
pub proof fn lemma_live_run_disjoint(
    state: FrameAllocator,
    s1: int,
    c1: int,
    s2: int,
    c2: int,
)
    requires
        c1 >= 1,
        c2 >= 1,
        forall|j: int| s1 <= j < s1 + c1 ==> state.is_set(j),
        forall|j: int| s2 <= j < s2 + c2 ==> !state.is_set(j),
    ensures
        s1 + c1 <= s2 || s2 + c2 <= s1,
{
    if !(s1 + c1 <= s2 || s2 + c2 <= s1) {
        let j = if s1 >= s2 {
            s1
        } else {
            s2
        };
        assert(state.is_set(j));
        assert(!state.is_set(j));
    }
}

} // verus!
