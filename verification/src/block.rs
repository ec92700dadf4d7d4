//! The block allocator: the kernel's general-purpose virtual heap.
//!
//! Every virtual page it serves is divided into 64 blocks of 64 bytes, and a
//! `BlockPage` is that page's occupancy bitmap. The allocator map is a
//! growable run of `BlockPage`s plus the address space it serves; index 0 is
//! always marked full and never handed out, so a null pointer can never name
//! live memory. The map's own storage is pages of the very address space it
//! manages: growth relocates the bookkeeping table through the mapper without
//! ever taking the general allocation path.

use vstd::arithmetic::div_mod::{
    lemma_fundamental_div_mod,
    lemma_fundamental_div_mod_converse,
};
use vstd::arithmetic::power2::is_pow2;
use vstd::prelude::*;

use crate::bits::{bit64, bit_clear, bit_set, bit_test, lemma_bit_full, lemma_bit_zero};
use crate::constants::PAGE_SIZE;
use crate::malloc::{Alloc, AllocError};
use crate::paging::VirtualAddressor;

verus! {

/// The size of an allocator block, in bytes.
pub const BLOCK_SIZE: usize = 64;

/// How many blocks one page holds: one bit of a `BlockPage` each.
pub const BLOCKS_PER_PAGE: usize = 64;

/// One page worth of block occupancy: bit set means the block is in use.
#[derive(Debug, Clone, Copy)]
pub struct BlockPage(u64);

impl BlockPage {
    /// The raw occupancy bits.
    pub closed spec fn spec_value(self) -> u64 {
        self.0
    }

    /// A block page with every block free.
    pub fn new() -> (r: BlockPage)
        ensures
            r.spec_value() == 0,
    {
        BlockPage(0)
    }

    /// Whether the block page is empty.
    pub fn is_empty(&self) -> (r: bool)
        ensures
            r == (self.spec_value() == 0),
    {
        self.0 == u64::MIN
    }

    /// Whether the block page is full.
    pub fn is_full(&self) -> (r: bool)
        ensures
            r == (self.spec_value() == u64::MAX),
    {
        self.0 == u64::MAX
    }

    /// Unset all of the block page's blocks.
    pub fn set_empty(&mut self)
        ensures
            final(self).spec_value() == 0,
    {
        self.0 = u64::MIN;
    }

    /// Set all of the block page's blocks.
    pub fn set_full(&mut self)
        ensures
            final(self).spec_value() == u64::MAX,
    {
        self.0 = u64::MAX;
    }

    /// The raw occupancy bits.
    pub fn value(&self) -> (r: &u64)
        ensures
            *r == self.spec_value(),
    {
        &self.0
    }

    /// The raw occupancy bits, for direct manipulation.
    pub fn value_mut(&mut self) -> (r: &mut u64)
        ensures
            *r == old(self).spec_value(),
            final(self).spec_value() == *final(r),
    {
        &mut self.0
    }
}

/// The map the block allocator works on: the occupancy table, the address
/// space it serves, and where in that address space the table itself lives.
pub struct AllocatorMap {
    addressor: VirtualAddressor,
    pages: Vec<BlockPage>,
    table_page: usize,
}

/// Allocator utilizing blocks of memory, in size of 64 bytes per block, to
/// easily and efficiently allocate.
pub struct BlockAllocator {
    map: AllocatorMap,
}

/// The least power of two no smaller than `x` (and no smaller than one).
pub open spec fn spec_npot(x: int) -> int
    decreases x,
{
    if x <= 1 {
        1
    } else {
        2 * spec_npot((x + 1) / 2)
    }
}

/// The length the allocator map takes when it grows from `cur` pages to fit
/// `req_blocks` more blocks: the next power of two, and at least one whole
/// page of `BlockPage`s.
pub open spec fn spec_grown_len(cur: int, req_blocks: int) -> int {
    let npot = spec_npot(cur + spec_blocks_to_pages(req_blocks));
    if npot < 512 {
        512
    } else {
        npot
    }
}

/// How many whole pages `req_blocks` blocks need.
pub open spec fn spec_blocks_to_pages(req_blocks: int) -> int {
    req_blocks / 64 + if req_blocks % 64 == 0 {
        0int
    } else {
        1int
    }
}

/// How many whole blocks a byte count needs; a zero-byte request still takes
/// one block.
pub open spec fn spec_size_in_blocks(size: int) -> int {
    let b = size / 64 + if size % 64 == 0 {
        0int
    } else {
        1int
    };
    if b == 0 {
        1int
    } else {
        b
    }
}

/// What a successful frame-backed page allocation means: the handle names a
/// run of pages, each marked fully used and mapped one-to-one onto the given
/// frames, carved out of pages that held nothing, with all other pages
/// untouched.
pub open spec fn spec_pages_bound(
    pre: BlockAllocator,
    post: BlockAllocator,
    a: Alloc<u8>,
    frame_index: int,
    count: int,
) -> bool {
    let s = a.spec_addr() as int / PAGE_SIZE as int;
    &&& a.spec_addr() == s * PAGE_SIZE
    &&& a.spec_len() == count * PAGE_SIZE
    &&& s + count <= post.pages_len()
    &&& forall|o: int|
        s <= o < s + count ==> post.page_full(o) && (post.addressor().spec_mapping(
            o,
        ) matches Some(m) && m.frame == frame_index + o - s)
    &&& forall|o: int| s <= o < s + count ==> pre.page_empty(o)
    &&& forall|o: int|
        0 <= o < post.pages_len() && !(s <= o < s + count) ==> post.page_value(o)
            == pre.page_value(o)
}

/// The post-state half of `spec_pages_bound`: the handle names a run of
/// fully-used pages mapped one-to-one onto the given frames.
pub open spec fn spec_pages_mapped(
    post: BlockAllocator,
    a: Alloc<u8>,
    frame_index: int,
    count: int,
) -> bool {
    let s = a.spec_addr() as int / PAGE_SIZE as int;
    &&& a.spec_addr() == s * PAGE_SIZE
    &&& a.spec_len() == count * PAGE_SIZE
    &&& s + count <= post.pages_len()
    &&& forall|o: int|
        s <= o < s + count ==> post.page_full(o) && (post.addressor().spec_mapping(
            o,
        ) matches Some(m) && m.frame == frame_index + o - s)
}

/// A block of the run `[sb, ..)` that lies in page `q`, for pages the run
/// touches.
pub open spec fn spec_run_block_in_page(sb: int, q: int) -> int {
    if 64 * q >= sb {
        64 * q
    } else {
        sb
    }
}

/// What growth preserves: every block in use outside the map's own table
/// stays in use and outside the table, and every allocated frame stays
/// allocated.
pub open spec fn grow_preserves(pre: BlockAllocator, post: BlockAllocator) -> bool {
    &&& forall|b: int|
        0 <= b < pre.pages_len() * 64 && #[trigger] pre.block(b) && !pre.is_table_block(b)
            ==> post.block(b) && !post.is_table_block(b)
    &&& forall|f: int|
        0 <= f < pre.addressor().frame_table().capacity()
            && #[trigger] pre.addressor().frame_table().is_set(f)
            ==> post.addressor().frame_table().is_set(f)
}

/// Whether frame `f` backed a page of `[sp, ep]` that a release leaves
/// empty: exactly these frames return to the frame table when a range is
/// freed.
pub open spec fn spec_frame_released(
    pre: BlockAllocator,
    post: BlockAllocator,
    sp: int,
    ep: int,
    f: int,
) -> bool {
    exists|q: int|
        sp <= q <= ep && post.page_empty(q) && #[trigger] pre.addressor().spec_mapping(
            q,
        ) is Some && pre.addressor().spec_mapping(q)->0.frame == f
}

/// Whether every frame of the underlying frame table is allocated: the
/// witness an out-of-memory failure must show.
pub open spec fn spec_frames_exhausted(s: BlockAllocator) -> bool {
    forall|f: int|
        0 <= f < s.addressor().frame_table().capacity() ==> s.addressor().frame_table().is_set(f)
}

/// Whether frame `g` is owned by no mapping of the address space.
pub open spec fn spec_frame_unowned(s: BlockAllocator, g: int) -> bool {
    forall|q: int|
        #[trigger] s.addressor().spec_mapping(q) is Some ==> s.addressor().spec_mapping(
            q,
        )->0.frame != g
}

/// Growth never captures a reserved-but-unowned frame: a frame that was
/// allocated and owned by no mapping stays owned by no mapping.
pub open spec fn spec_unowned_preserved(pre: BlockAllocator, post: BlockAllocator) -> bool {
    forall|g: int, p: int|
        0 <= g && #[trigger] pre.addressor().frame_table().is_set(g) && spec_frame_unowned(pre, g)
            && #[trigger] post.addressor().spec_mapping(p) is Some ==> post.addressor().spec_mapping(
            p,
        )->0.frame != g
}

/// Whether a run of `count` consecutive empty pages exists.
pub open spec fn spec_has_page_run(s: BlockAllocator, count: int) -> bool {
    exists|t: int|
        0 <= t && #[trigger] (t % 1int) == 0 && t + count <= s.pages_len() && (forall|p: int|
            t <= p < t + count ==> s.page_empty(p))
}

/// What a successful growth leaves of the occupancy map: the relocated table
/// full at its new place, the old table's pages empty, every other page's
/// value preserved exactly, and the fresh pages beyond the old coverage
/// empty (page 0 full when the map was empty before).
pub open spec fn spec_grow_shape(pre: BlockAllocator, post: BlockAllocator) -> bool {
    let tp = post.table_page();
    let tps = post.table_pages();
    let otp = pre.table_page();
    let otps = if pre.pages_len() == 0 {
        0int
    } else {
        pre.table_pages()
    };
    &&& 1 <= tp && tp + tps <= post.pages_len()
    &&& forall|p: int| tp <= p < tp + tps ==> post.page_full(p)
    &&& forall|p: int| pre.pages_len() > 0 && otp <= p < otp + otps ==> post.page_empty(p)
    &&& forall|p: int|
        0 <= p < pre.pages_len() && !(tp <= p < tp + tps) && !(pre.pages_len() > 0 && otp <= p
            < otp + otps) ==> post.page_value(p) == pre.page_value(p)
    &&& forall|p: int|
        pre.pages_len() <= p < post.pages_len() && !(tp <= p < tp + tps) && !(pre.pages_len() == 0
            && p == 0) ==> post.page_empty(p)
    &&& (pre.pages_len() == 0 ==> post.page_full(0))
}

/// Whether a `stride`-aligned run of `n` free blocks exists in the map.
pub open spec fn spec_has_fit(s: BlockAllocator, n: int, stride: int) -> bool {
    exists|t: int|
        0 <= t && #[trigger] (t % stride) == 0 && t + n <= s.pages_len() * 64 && (forall|b: int|
            t <= b < t + n ==> !s.block(b))
}

/// A fitting free run with every page up to its end already in use: serving
/// it needs no growth and no fresh frame, so such a request cannot fail.
pub open spec fn spec_has_mapped_fit(s: BlockAllocator, n: int, stride: int) -> bool {
    exists|t: int|
        0 <= t && #[trigger] (t % stride) == 0 && t + n <= s.pages_len() * 64 && (forall|b: int|
            t <= b < t + n ==> !s.block(b)) && (forall|q: int|
            0 <= q <= (t + n - 1) / 64 ==> !s.page_empty(q))
}

/// What a successful allocation means: the handle names a run of the right
/// length and alignment whose blocks are now in use, the run was no live
/// allocation before, every live allocation survives, and if a fitting run
/// already existed the map did not grow and the lowest fitting run was taken.
pub open spec fn spec_alloc_success(
    pre: BlockAllocator,
    post: BlockAllocator,
    a: Alloc<u8>,
    size: int,
    align: Option<usize>,
) -> bool {
    let n = spec_size_in_blocks(size);
    let stride = spec_align_stride(align);
    let sb = a.spec_addr() as int / 64;
    &&& a.spec_addr() == sb * 64
    &&& a.spec_len() == n * 64
    &&& a.spec_len() >= size
    &&& sb % stride == 0
    &&& (align matches Some(al) ==> a.spec_addr() as int % al as int == 0)
    &&& sb + n <= post.pages_len() * 64
    &&& forall|b: int| sb <= b < sb + n ==> post.block(b)
    &&& forall|b: int|
        sb <= b < sb + n && b < pre.pages_len() * 64 && #[trigger] pre.block(b)
            ==> pre.is_table_block(b)
    &&& forall|b: int|
        0 <= b < pre.pages_len() * 64 && #[trigger] pre.block(b) && !pre.is_table_block(b)
            ==> post.block(b) && !post.is_table_block(b)
    &&& (spec_has_fit(pre, n, stride) ==> {
        &&& post.pages_len() == pre.pages_len()
        &&& post.table_page() == pre.table_page()
        &&& forall|b: int| sb <= b < sb + n ==> !pre.block(b)
        &&& forall|b: int|
            0 <= b < post.pages_len() * 64 && !(sb <= b < sb + n) ==> post.block(b) == pre.block(
                b,
            )
        &&& forall|t: int|
            0 <= t < sb && #[trigger] (t % stride) == 0 ==> exists|b: int|
                t <= b < t + n && pre.block(b)
        &&& forall|p: int|
            sb / 64 <= p <= (sb + n - 1) / 64 && pre.page_empty(p)
                ==> #[trigger] post.addressor().spec_mapping(p) is Some
        &&& forall|p: int|
            !(sb / 64 <= p <= (sb + n - 1) / 64 && pre.page_empty(p))
                ==> #[trigger] post.addressor().spec_mapping(p) == pre.addressor().spec_mapping(p)
    })
}

/// The block-index stride that an alignment request means.
pub open spec fn spec_align_stride(align: Option<usize>) -> int {
    match align {
        None => 1,
        Some(a) => {
            if a as int / 64 >= 1 {
                a as int / 64
            } else {
                1
            }
        },
    }
}

proof fn lemma_npot_bounds(x: int)
    ensures
        spec_npot(x) >= 1,
        spec_npot(x) >= x,
        x >= 2 ==> spec_npot(x) <= 2 * (x - 1),
        is_pow2(spec_npot(x)),
    decreases x,
{
    reveal(is_pow2);
    if x <= 1 {
    } else {
        let c = (x + 1) / 2;
        lemma_npot_bounds(c);
        if c == 1 {
            assert(x == 2);
            assert(spec_npot(1int) == 1);
        } else {
            assert(spec_npot(c) <= 2 * (c - 1));
            assert(2 * c <= x + 1);
        }
    }
}

proof fn lemma_npot_mono(x: int, y: int)
    requires
        x <= y,
    ensures
        spec_npot(x) <= spec_npot(y),
    decreases y,
{
    if y <= 1 {
    } else if x <= 1 {
        lemma_npot_bounds(y);
    } else {
        lemma_npot_mono((x + 1) / 2, (y + 1) / 2);
    }
}

/// Growing a power of two by anything at least doubles it.
proof fn lemma_npot_succ_pow2(c: int)
    requires
        is_pow2(c),
    ensures
        spec_npot(c + 1) == 2 * c,
    decreases c,
{
    reveal(is_pow2);
    if c == 1 {
        assert(spec_npot(2int) == 2 * spec_npot(1int));
        assert(spec_npot(1int) == 1);
    } else {
        assert(c % 2 == 0 && is_pow2(c / 2));
        lemma_npot_succ_pow2(c / 2);
        assert((c + 2) / 2 == c / 2 + 1);
        assert(spec_npot(c + 1) == 2 * spec_npot(c / 2 + 1));
        assert(spec_npot(c / 2 + 1) == 2 * (c / 2));
        assert(2 * (2 * (c / 2)) == 2 * c);
    }
}

/// A power of two is a multiple of every smaller power of two.
proof fn lemma_pow2_multiple(n: int, m: int)
    requires
        is_pow2(n),
        is_pow2(m),
        m <= n,
    ensures
        n % m == 0,
    decreases n,
{
    reveal(is_pow2);
    if n == m {
        vstd::arithmetic::div_mod::lemma_mod_self_0(n);
    } else {
        assert(m < n);
        assert(n % 2 == 0 && is_pow2(n / 2));
        assert(m == 1 || m % 2 == 0);
        if m == 1 {
            assert(n % 1 == 0) by (nonlinear_arith);
        } else {
            assert(n >= 2 && m >= 2);
            lemma_pow2_multiple(n / 2, m / 2);
            let q = (n / 2) / (m / 2);
            lemma_fundamental_div_mod(n / 2, m / 2);
            assert(n / 2 == (m / 2) * q);
            assert(n == m * q) by (nonlinear_arith)
                requires
                    n / 2 == (m / 2) * q,
                    n == 2 * (n / 2),
                    m == 2 * (m / 2),
            ;
            vstd::arithmetic::div_mod::lemma_mod_multiples_basic(q, m);
        }
    }
}

/// Whether `x` is a power of two, decided at run time.
pub fn check_pow2(x: usize) -> (r: bool)
    ensures
        r == is_pow2(x as int),
{
    proof {
        reveal(is_pow2);
    }
    if x == 0 {
        return false;
    }
    let mut v = x;
    while v % 2 == 0 && v > 1
        invariant
            v >= 1,
            is_pow2(x as int) == is_pow2(v as int),
        decreases v,
    {
        proof {
            reveal(is_pow2);
        }
        v = v / 2;
    }
    proof {
        reveal(is_pow2);
    }
    v == 1
}

/// The least power of two at least `x`, at run time.
fn next_pow2(x: usize) -> (r: usize)
    requires
        x <= usize::MAX / 2,
    ensures
        r == spec_npot(x as int),
    decreases x,
{
    proof {
        lemma_npot_bounds(x as int);
        if x > 1 {
            lemma_npot_bounds((x as int + 1) / 2);
        }
    }
    if x <= 1 {
        1
    } else {
        2 * next_pow2((x + 1) / 2)
    }
}

impl BlockAllocator {
    /// Number of block pages the map currently covers.
    pub closed spec fn pages_len(self) -> int {
        self.map.pages@.len() as int
    }

    /// The raw occupancy bits of page `p`.
    pub closed spec fn page_value(self, p: int) -> u64 {
        self.map.pages@[p].spec_value()
    }

    /// Whether block `b` (a global block index) is in use.
    pub open spec fn block(self, b: int) -> bool {
        bit64(self.page_value(b / 64), b % 64)
    }

    /// Whether page `p` has no block in use.
    pub open spec fn page_empty(self, p: int) -> bool {
        self.page_value(p) == 0
    }

    /// Whether page `p` has every block in use.
    pub open spec fn page_full(self, p: int) -> bool {
        self.page_value(p) == u64::MAX
    }

    /// The address space this allocator serves.
    pub closed spec fn addressor(self) -> VirtualAddressor {
        self.map.addressor
    }

    /// The page index where the map's own table starts.
    pub closed spec fn table_page(self) -> int {
        self.map.table_page as int
    }

    /// How many pages the map's own table occupies.
    pub open spec fn table_pages(self) -> int {
        self.pages_len() / 512
    }

    /// Whether page `p` belongs to the map's own table.
    pub open spec fn is_table_page(self, p: int) -> bool {
        self.pages_len() > 0 && self.table_page() <= p < self.table_page() + self.table_pages()
    }

    /// Whether block `b` belongs to the map's own table.
    pub open spec fn is_table_block(self, b: int) -> bool {
        self.is_table_page(b / 64)
    }

    /// Well-formedness. The address space is sound, active and maps no frame
    /// twice; the map length is zero or a power of two of at least one page
    /// of `BlockPage`s, small enough that every block has an address; page 0
    /// is full; the map's own table sits on full pages past page 0; a mapped
    /// page is in range and has blocks in use; and a page with blocks in use
    /// is mapped, page 0 excepted.
    pub closed spec fn wf(self) -> bool {
        &&& self.map.addressor.wf()
        &&& self.map.addressor.is_active()
        &&& self.map.addressor.injective()
        &&& self.pages_len() * PAGE_SIZE <= usize::MAX
        &&& (self.pages_len() == 0 || {
            &&& self.pages_len() >= 512
            &&& is_pow2(self.pages_len())
            &&& self.page_full(0)
            &&& 1 <= self.table_page()
            &&& self.table_page() + self.table_pages() <= self.pages_len()
            &&& forall|p: int|
                self.table_page() <= p < self.table_page() + self.table_pages()
                    ==> self.page_full(p)
        })
        &&& forall|p: int|
            #[trigger] self.map.addressor.is_mapped(p) ==> 0 <= p < self.pages_len()
                && !self.page_empty(p)
        &&& forall|p: int|
            1 <= p < self.pages_len() && !(#[trigger] self.page_empty(p))
                ==> self.map.addressor.is_mapped(p)
    }

    /// `wf` for callers that cannot see into it.
    pub proof fn lemma_wf_exposed(&self)
        requires
            self.wf(),
        ensures
            self.pages_len() * PAGE_SIZE <= usize::MAX,
            self.pages_len() == 0 || self.pages_len() >= 512,
            self.pages_len() == 0 || is_pow2(self.pages_len()),
            self.pages_len() == 0 || self.page_full(0),
            self.addressor().wf(),
            self.addressor().is_active(),
    {
    }


    proof fn lemma_page_of_block(self, b: int)
        requires
            0 <= b < self.pages_len() * 64,
        ensures
            0 <= b / 64 < self.pages_len(),
            b == (b / 64) * 64 + b % 64,
            0 <= b % 64 < 64,
    {
        crate::bits::lemma_bit_index_split(b);
        assert(b / 64 < self.pages_len()) by (nonlinear_arith)
            requires
                (b / 64) * 64 + b % 64 < self.pages_len() * 64,
                0 <= b % 64 < 64,
                0 <= b / 64,
        ;
    }

    /// Number of block pages the map currently covers.
    pub fn len(&self) -> (r: usize)
        ensures
            r == self.pages_len(),
    {
        self.map.pages.len()
    }

    /// Whether block `b` is in use.
    fn block_get(&self, b: usize) -> (r: bool)
        requires
            b < self.pages_len() * 64,
        ensures
            r == self.block(b as int),
    {
        proof {
            self.lemma_page_of_block(b as int);
        }
        let w = *self.map.pages[b / 64].value();
        bit_test(w, (b % 64) as u64)
    }

    /// Mark block `b` in use; every other block keeps its state, and no page
    /// or mapping changes beyond that bit.
    fn block_set(&mut self, b: usize)
        requires
            b < old(self).pages_len() * 64,
        ensures
            final(self).pages_len() == old(self).pages_len(),
            final(self).addressor() == old(self).addressor(),
            final(self).table_page() == old(self).table_page(),
            forall|j: int|
                0 <= j < final(self).pages_len() * 64 ==> final(self).block(j) == (old(self).block(
                    j,
                ) || j == b as int),
            forall|p: int|
                0 <= p < final(self).pages_len() && p != b as int / 64 ==> final(self).page_value(
                    p,
                ) == old(self).page_value(p),
            !final(self).page_empty(b as int / 64),
            forall|p: int|
                0 <= p < final(self).pages_len() && !old(self).page_empty(p) ==> !final(self).page_empty(p),
    {
        proof {
            self.lemma_page_of_block(b as int);
        }
        let pi = b / 64;
        let w = *self.map.pages[pi].value();
        let nw = bit_set(w, (b % 64) as u64);
        self.map.pages[pi] = BlockPage(nw);
        proof {
            assert(bit64(nw, b as int % 64));
            if nw == 0 {
                lemma_bit_zero(b as int % 64);
            }
            if w != 0 {
                crate::bits::lemma_or_keeps_nonzero(w, 1u64 << ((b % 64) as u64));
            }
            assert forall|p: int|
                0 <= p < self.pages_len() && !old(self).page_empty(p) implies !self.page_empty(
                p,
            ) by {
                if p != pi as int {
                    assert(self.page_value(p) == old(self).page_value(p));
                }
            }
            assert forall|j: int| 0 <= j < self.pages_len() * 64 implies #[trigger] self.block(j)
                == (old(self).block(j) || j == b as int) by {
                self.lemma_page_of_block(j);
                if j / 64 == pi as int {
                    if j % 64 == b as int % 64 {
                        assert(j == b as int);
                    } else {
                        assert(j != b as int);
                    }
                } else {
                    assert(j != b as int);
                    assert(self.page_value(j / 64) == old(self).page_value(j / 64));
                }
            }
        }
    }

    /// Mark block `b` free; every other block keeps its state.
    fn block_clear(&mut self, b: usize)
        requires
            b < old(self).pages_len() * 64,
        ensures
            final(self).pages_len() == old(self).pages_len(),
            final(self).addressor() == old(self).addressor(),
            final(self).table_page() == old(self).table_page(),
            forall|j: int|
                0 <= j < final(self).pages_len() * 64 ==> final(self).block(j) == (old(self).block(
                    j,
                ) && j != b as int),
            forall|p: int|
                0 <= p < final(self).pages_len() && p != b as int / 64 ==> final(self).page_value(
                    p,
                ) == old(self).page_value(p),
    {
        proof {
            self.lemma_page_of_block(b as int);
        }
        let pi = b / 64;
        let w = *self.map.pages[pi].value();
        let nw = bit_clear(w, (b % 64) as u64);
        self.map.pages[pi] = BlockPage(nw);
        proof {
            assert forall|j: int| 0 <= j < self.pages_len() * 64 implies #[trigger] self.block(j)
                == (old(self).block(j) && j != b as int) by {
                self.lemma_page_of_block(j);
                if j / 64 == pi as int {
                    if j % 64 == b as int % 64 {
                        assert(j == b as int);
                    } else {
                        assert(j != b as int);
                    }
                } else {
                    assert(j != b as int);
                    assert(self.page_value(j / 64) == old(self).page_value(j / 64));
                }
            }
        }
    }

    /// A page with a set block is not empty; an empty page has no set block.
    proof fn lemma_empty_page_blocks(self, p: int)
        requires
            0 <= p < self.pages_len(),
        ensures
            self.page_empty(p) ==> forall|b: int| p * 64 <= b < p * 64 + 64 ==> !self.block(b),
            self.page_full(p) ==> forall|b: int| p * 64 <= b < p * 64 + 64 ==> self.block(b),
    {
        if self.page_empty(p) {
            assert forall|b: int| p * 64 <= b < p * 64 + 64 implies !self.block(b) by {
                lemma_fundamental_div_mod_converse(b, 64, p, b - p * 64);
                lemma_bit_zero(b % 64);
            }
        }
        if self.page_full(p) {
            assert forall|b: int| p * 64 <= b < p * 64 + 64 implies self.block(b) by {
                lemma_fundamental_div_mod_converse(b, 64, p, b - p * 64);
                lemma_bit_full(b % 64);
            }
        }
    }

    /// Find the lowest run of `count` consecutive empty block pages, if one
    /// exists.
    fn find_empty_page_run(&self, count: usize) -> (r: Option<usize>)
        requires
            count >= 1,
        ensures
            match r {
                Some(s) => {
                    &&& s + count <= self.pages_len()
                    &&& forall|p: int| s <= p < s + count ==> self.page_empty(p)
                    &&& forall|t: int|
                        0 <= t < s && #[trigger] (t % 1int) == 0 ==> exists|p: int|
                            t <= p < t + count && !self.page_empty(p)
                },
                None => forall|t: int|
                    0 <= t && #[trigger] (t % 1int) == 0 && t + count <= self.pages_len()
                        ==> exists|p: int| t <= p < t + count && !self.page_empty(p),
            },
    {
        let len = self.map.pages.len();
        if count > len {
            return None;
        }
        let mut s: usize = 0;
        loop
            invariant
                1 <= count <= len,
                len == self.pages_len(),
                s <= len,
                forall|t: int|
                    0 <= t < s && #[trigger] (t % 1int) == 0 ==> exists|p: int|
                        t <= p < t + count && !self.page_empty(p),
            ensures
                s + count > len,
                forall|t: int|
                    0 <= t < s && #[trigger] (t % 1int) == 0 ==> exists|p: int|
                        t <= p < t + count && !self.page_empty(p),
            decreases len - s,
        {
            if s > len - count {
                break ;
            }
            match self.first_nonempty_in(s, s + count) {
                None => {
                    return Some(s);
                },
                Some(k) => {
                    proof {
                        assert forall|t: int|
                            s <= t < s + 1 && #[trigger] (t % 1int) == 0 implies exists|p: int|
                            t <= p < t + count && !self.page_empty(p) by {
                            assert(!self.page_empty(k as int));
                        }
                    }
                    s += 1;
                },
            }
        }
        None
    }

    /// Find the lowest page with a block in use in `[start, end)`, if any.
    fn first_nonempty_in(&self, start: usize, end: usize) -> (r: Option<usize>)
        requires
            start <= end,
            end <= self.pages_len(),
        ensures
            match r {
                Some(k) => start <= k < end && !self.page_empty(k as int),
                None => forall|p: int| start <= p < end ==> self.page_empty(p),
            },
    {
        let mut j = start;
        while j < end
            invariant
                start <= j <= end,
                end <= self.pages_len(),
                forall|p: int| start <= p < j ==> self.page_empty(p),
            decreases end - j,
        {
            if !self.map.pages[j].is_empty() {
                return Some(j);
            }
            j += 1;
        }
        None
    }

    /// `is_pow2(512)`, spelled out once.
    proof fn lemma_pow2_512()
        ensures
            is_pow2(512int),
    {
        reveal_with_fuel(is_pow2, 11);
    }

    /// Facts about the grown length: a power of two, at least a whole page of
    /// `BlockPage`s, strictly more than before, divisible by 512, and leaving
    /// room for the relocated table behind the old coverage.
    proof fn lemma_grown_len(cur: int, req: int)
        requires
            req >= 1,
            cur == 0 || (cur >= 512 && is_pow2(cur)),
        ensures
            ({
                let g = spec_grown_len(cur, req);
                &&& g >= 512
                &&& is_pow2(g)
                &&& g % 512 == 0
                &&& g / 512 >= 1
                &&& g > cur
                &&& cur + g / 512 < g
                &&& cur == 0 ==> 1 + g / 512 < g
            }),
    {
        let bp = spec_blocks_to_pages(req);
        assert(bp >= 1);
        let n = spec_npot(cur + bp);
        let g = spec_grown_len(cur, req);
        lemma_npot_bounds(cur + bp);
        Self::lemma_pow2_512();
        if g == 512 && n < 512 {
        } else {
            assert(g == n);
        }
        assert(is_pow2(g));
        lemma_pow2_multiple(g, 512);
        lemma_fundamental_div_mod(g, 512);
        assert(g == 512 * (g / 512));
        assert(g / 512 >= 1) by (nonlinear_arith)
            requires
                g == 512 * (g / 512),
                g >= 512,
        ;
        // g > cur, and the table fits behind the old coverage.
        if cur == 0 {
            assert(g > 0);
            assert(512 * (g / 512) >= 2 * (g / 512) + 2) by (nonlinear_arith)
                requires
                    g / 512 >= 1,
            ;
            assert(1 + g / 512 < g);
        } else {
            lemma_npot_mono(cur + 1, cur + bp);
            lemma_npot_succ_pow2(cur);
            assert(spec_npot(cur + 1) == 2 * cur);
            assert(n >= 2 * cur);
            assert(g >= 2 * cur);
            assert(g > cur);
            assert(g / 512 <= g / 2) by {
                vstd::arithmetic::div_mod::lemma_div_is_ordered_by_denominator(g, 2, 512);
            }
            assert(g == 512 * (g / 512) && g >= 1024 ==> g / 512 < g / 2) by (nonlinear_arith);
            if g == 512 {
                assert(cur + g / 512 < g);
            } else {
                assert(is_pow2(2int)) by {
                    reveal_with_fuel(is_pow2, 3);
                }
                assert(g % 2 == 0) by {
                    lemma_pow2_multiple(g, 2);
                    lemma_fundamental_div_mod(g, 2);
                }
                assert(g / 2 + g / 2 == g) by (nonlinear_arith)
                    requires
                        g % 2 == 0,
                ;
                assert(cur <= g / 2) by (nonlinear_arith)
                    requires
                        2 * cur <= g,
                        g / 2 + g / 2 == g,
                ;
                assert(g / 512 < g / 2) by (nonlinear_arith)
                    requires
                        g == 512 * (g / 512),
                        g / 512 >= 1,
                        g / 2 + g / 2 == g,
                ;
                assert(cur + g / 512 < g);
            }
        }
    }

    /// Well-formedness survives when the pages, the table position and the
    /// mappings are all unchanged and the frame table only gained bits.
    proof fn lemma_same_state_wf(pre: BlockAllocator, now: BlockAllocator)
        requires
            pre.wf(),
            now.map.pages == pre.map.pages,
            now.map.table_page == pre.map.table_page,
            now.map.addressor.wf(),
            now.map.addressor.is_active(),
            forall|p: int|
                now.map.addressor.spec_mapping(p) == pre.map.addressor.spec_mapping(p),
        ensures
            now.wf(),
    {
        assert forall|p: int| #[trigger] now.page_value(p) == pre.page_value(p) by {}
        if now.pages_len() > 0 {
            assert(pre.page_full(0));
            assert(now.page_full(0));
            assert forall|p: int|
                now.table_page() <= p < now.table_page() + now.table_pages() implies
                #[trigger] now.page_full(p) by {
                assert(pre.page_full(p));
            }
        }
        assert forall|p: int| #[trigger] now.map.addressor.is_mapped(p) implies 0 <= p
            < now.pages_len() && !now.page_empty(p) by {
            assert(pre.map.addressor.spec_mapping(p) == now.map.addressor.spec_mapping(p));
            assert(pre.map.addressor.is_mapped(p));
            assert(now.page_value(p) == pre.page_value(p));
        }
        assert forall|p: int|
            1 <= p < now.pages_len() && !(#[trigger] now.page_empty(p)) implies
            now.map.addressor.is_mapped(p) by {
            assert(now.page_value(p) == pre.page_value(p));
            assert(!pre.page_empty(p));
            assert(pre.map.addressor.is_mapped(p));
            assert(pre.map.addressor.spec_mapping(p) == now.map.addressor.spec_mapping(p));
        }
        assert forall|p1: int, p2: int|
            p1 != p2 && #[trigger] now.map.addressor.spec_mapping(p1) is Some
                && #[trigger] now.map.addressor.spec_mapping(p2) is Some implies
            now.map.addressor.spec_mapping(p1)->0.frame != now.map.addressor.spec_mapping(
            p2,
        )->0.frame by {
            assert(pre.map.addressor.spec_mapping(p1) == now.map.addressor.spec_mapping(p1));
            assert(pre.map.addressor.spec_mapping(p2) == now.map.addressor.spec_mapping(p2));
        }
    }

    /// Assembling the final state of a successful growth: the committed state
    /// is well-formed and growth preserved every user block and frame.
    proof fn lemma_grow_commit(
        pre: BlockAllocator,
        mapped: BlockAllocator,
        now: BlockAllocator,
        dst: int,
        cmp: int,
        rmp: int,
        grown: int,
    )
        requires
            pre.wf(),
            grown >= 512,
            is_pow2(grown),
            grown * PAGE_SIZE <= usize::MAX,
            grown / 512 == rmp,
            rmp >= 1,
            0 <= cmp <= rmp,
            1 <= dst,
            dst + rmp <= grown,
            grown > pre.pages_len(),
            pre.pages_len() == 0 ==> cmp == 0,
            pre.pages_len() > 0 ==> cmp == pre.table_pages(),
            forall|p: int| dst <= p < dst + rmp ==> p >= pre.pages_len() || #[trigger] pre.page_empty(p),
            cmp == 0 || dst + rmp <= pre.table_page() || pre.table_page() + cmp <= dst,
            // the state after the mapping phases
            mapped.map.addressor.wf(),
            forall|p: int|
                dst <= p < dst + cmp ==> mapped.map.addressor.spec_mapping(p)
                    == pre.map.addressor.spec_mapping(pre.table_page() + (p - dst)),
            forall|p: int|
                dst + cmp <= p < dst + rmp ==> #[trigger] mapped.map.addressor.spec_mapping(
                    p,
                ) is Some,
            forall|p: int, q: int|
                dst + cmp <= p < dst + rmp && q != p
                    && #[trigger] mapped.map.addressor.spec_mapping(q) is Some
                    && #[trigger] mapped.map.addressor.spec_mapping(p) is Some
                    ==> mapped.map.addressor.spec_mapping(q)->0.frame
                    != mapped.map.addressor.spec_mapping(p)->0.frame,
            forall|p: int|
                !(dst <= p < dst + rmp) ==> mapped.map.addressor.spec_mapping(p)
                    == pre.map.addressor.spec_mapping(p),
            // the committed state
            now.map.addressor.wf(),
            now.map.addressor.is_active(),
            now.pages_len() == grown,
            now.table_page() == dst,
            now.map.addressor.frame_table() == mapped.map.addressor.frame_table(),
            forall|f: int|
                0 <= f < pre.addressor().frame_table().capacity()
                    && pre.addressor().frame_table().is_set(f)
                    ==> mapped.map.addressor.frame_table().is_set(f),
            forall|p: int|
                pre.pages_len() > 0 && pre.table_page() <= p < pre.table_page() + cmp
                    ==> #[trigger] now.map.addressor.spec_mapping(p) is None,
            forall|p: int|
                !(pre.pages_len() > 0 && pre.table_page() <= p < pre.table_page() + cmp)
                    ==> now.map.addressor.spec_mapping(p) == mapped.map.addressor.spec_mapping(p),
            forall|p: int| dst <= p < dst + rmp ==> now.page_value(p) == u64::MAX,
            forall|p: int|
                0 <= p < pre.pages_len() && !(dst <= p < dst + rmp) && !(pre.pages_len() > 0
                    && pre.table_page() <= p < pre.table_page() + cmp) ==> now.page_value(p)
                    == pre.page_value(p),
            forall|p: int|
                pre.pages_len() <= p < grown && !(dst <= p < dst + rmp) && !(pre.pages_len() == 0
                    && p == 0) ==> now.page_value(p) == 0,
            forall|p: int|
                pre.pages_len() > 0 && pre.table_page() <= p < pre.table_page() + cmp
                    ==> now.page_value(p) == 0,
            pre.pages_len() == 0 ==> now.page_value(0) == u64::MAX,
        ensures
            now.wf(),
            grow_preserves(pre, now),
    {
        let ghost otp = pre.table_page();
        // page 0 is full
        assert(now.page_full(0)) by {
            if pre.pages_len() > 0 {
                assert(pre.page_full(0));
                assert(!pre.page_empty(0));
                assert(!(dst <= 0 < dst + rmp));
                if pre.table_page() <= 0 < pre.table_page() + cmp {
                    assert(pre.table_page() >= 1);
                }
                assert(now.page_value(0) == pre.page_value(0));
            }
        }
        // table pages of the new table are full
        assert(now.table_pages() == rmp);
        assert forall|p: int| now.table_page() <= p < now.table_page() + now.table_pages() implies
            #[trigger] now.page_full(p) by {}
        // B1: a mapped page is in range with blocks in use
        assert forall|p: int| #[trigger] now.map.addressor.is_mapped(p) implies 0 <= p
            < now.pages_len() && !now.page_empty(p) by {
            if pre.pages_len() > 0 && otp <= p < otp + cmp {
                assert(now.map.addressor.spec_mapping(p) is None);
            } else {
                assert(now.map.addressor.spec_mapping(p) == mapped.map.addressor.spec_mapping(p));
                if dst <= p < dst + rmp {
                    assert(now.page_value(p) == u64::MAX);
                } else {
                    assert(mapped.map.addressor.spec_mapping(p)
                        == pre.map.addressor.spec_mapping(p));
                    assert(pre.map.addressor.is_mapped(p));
                    assert(0 <= p < pre.pages_len() && !pre.page_empty(p));
                    assert(now.page_value(p) == pre.page_value(p));
                }
            }
        }
        // B2: a page with blocks in use is mapped (page 0 aside)
        assert forall|p: int|
            1 <= p < now.pages_len() && !(#[trigger] now.page_empty(p)) implies
            now.map.addressor.is_mapped(p) by {
            if dst <= p < dst + rmp {
                if p < dst + cmp {
                    let src = otp + (p - dst);
                    assert(pre.page_full(src));
                    assert(!pre.page_empty(src));
                    assert(src >= 1);
                    assert(pre.map.addressor.is_mapped(src));
                    assert(now.map.addressor.spec_mapping(p)
                        == pre.map.addressor.spec_mapping(src));
                } else {
                    assert(mapped.map.addressor.spec_mapping(p) is Some);
                    assert(now.map.addressor.spec_mapping(p)
                        == mapped.map.addressor.spec_mapping(p));
                }
            } else if pre.pages_len() > 0 && otp <= p < otp + cmp {
                assert(now.page_value(p) == 0);
            } else if p < pre.pages_len() {
                assert(now.page_value(p) == pre.page_value(p));
                assert(!pre.page_empty(p));
                assert(pre.map.addressor.is_mapped(p));
                assert(now.map.addressor.spec_mapping(p) == mapped.map.addressor.spec_mapping(p));
                assert(mapped.map.addressor.spec_mapping(p) == pre.map.addressor.spec_mapping(p));
            } else {
                assert(now.page_value(p) == 0);
            }
        }
        // injectivity: old aliases (copy pairs) are gone, fresh frames are new
        assert forall|p1: int, p2: int|
            p1 != p2 && #[trigger] now.map.addressor.spec_mapping(p1) is Some
                && #[trigger] now.map.addressor.spec_mapping(p2) is Some implies
            now.map.addressor.spec_mapping(p1)->0.frame != now.map.addressor.spec_mapping(
            p2,
        )->0.frame by {
            let in_old_table = |p: int| pre.pages_len() > 0 && otp <= p < otp + cmp;
            assert(!in_old_table(p1) && !in_old_table(p2));
            assert(now.map.addressor.spec_mapping(p1) == mapped.map.addressor.spec_mapping(p1));
            assert(now.map.addressor.spec_mapping(p2) == mapped.map.addressor.spec_mapping(p2));
            if dst + cmp <= p1 < dst + rmp || dst + cmp <= p2 < dst + rmp {
                // a fresh mapping differs from every other one
            } else {
                // both are pre mappings, possibly relocated copies
                let s1 = if dst <= p1 < dst + cmp {
                    otp + (p1 - dst)
                } else {
                    p1
                };
                let s2 = if dst <= p2 < dst + cmp {
                    otp + (p2 - dst)
                } else {
                    p2
                };
                assert(mapped.map.addressor.spec_mapping(p1) == pre.map.addressor.spec_mapping(
                    s1,
                ));
                assert(mapped.map.addressor.spec_mapping(p2) == pre.map.addressor.spec_mapping(
                    s2,
                ));
                assert(s1 != s2) by {
                    if dst <= p1 < dst + cmp && !(dst <= p2 < dst + cmp) {
                        assert(in_old_table(s1));
                        assert(!in_old_table(s2) || now.map.addressor.spec_mapping(p2) is None);
                    }
                    if dst <= p2 < dst + cmp && !(dst <= p1 < dst + cmp) {
                        assert(in_old_table(s2));
                        assert(!in_old_table(s1) || now.map.addressor.spec_mapping(p1) is None);
                    }
                }
            }
        }
        // user blocks survive
        assert forall|b: int|
            0 <= b < pre.pages_len() * 64 && #[trigger] pre.block(b) && !pre.is_table_block(b)
            implies now.block(b) && !now.is_table_block(b) by {
            pre.lemma_page_of_block(b);
            let p = b / 64;
            pre.lemma_block_nonempty(b);
            assert(!(dst <= p < dst + rmp));
            assert(!(otp <= p < otp + cmp));
            assert(now.page_value(p) == pre.page_value(p));
        }
    }

    /// A set block makes its page non-empty.
    proof fn lemma_block_nonempty(self, b: int)
        requires
            0 <= b < self.pages_len() * 64,
            self.block(b),
        ensures
            !self.page_empty(b / 64),
    {
        self.lemma_page_of_block(b);
        if self.page_value(b / 64) == 0 {
            lemma_bit_zero(b % 64);
        }
    }

    /// Double the map's capacity so that `required_blocks` more blocks fit:
    /// the next power of two of the needed length, and at least one whole
    /// page of `BlockPage`s. The map's own table is relocated: a run of empty
    /// pages (or fresh pages past the current coverage) receives the old
    /// table's mappings by copy, the remainder is mapped to fresh frames, the
    /// old table's pages are unmapped, and the new table's pages are marked
    /// full. Growth never takes the general allocation path. On failure the
    /// map is rolled back; frames taken for the failed growth stay reserved.
    #[verifier::rlimit(100)]
    pub fn grow(&mut self, required_blocks: usize) -> (r: Result<(), AllocError>)
        requires
            old(self).wf(),
            required_blocks >= 1,
        ensures
            final(self).wf(),
            final(self).addressor().spec_mapped_offset() == old(self).addressor().spec_mapped_offset(),
            final(self).addressor().frame_table().capacity() == old(self).addressor().frame_table().capacity(),
            final(self).addressor().frame_table().frames() == old(self).addressor().frame_table().frames(),
            match r {
                Ok(()) => {
                    &&& final(self).pages_len() == spec_grown_len(
                        old(self).pages_len(),
                        required_blocks as int,
                    )
                    &&& final(self).pages_len() > old(self).pages_len()
                    &&& grow_preserves(*old(self), *final(self))
                    &&& spec_grow_shape(*old(self), *final(self))
                    &&& spec_unowned_preserved(*old(self), *final(self))
                    &&& (old(self).pages_len() == 0 ==> final(self).table_page() == 1)
                },
                Err(e) => {
                    &&& e is OutOfMemory
                    &&& (spec_frames_exhausted(*final(self)) || spec_grown_len(
                        old(self).pages_len(),
                        required_blocks as int,
                    ) > usize::MAX as int / PAGE_SIZE as int)
                    &&& (old(self).pages_len() == 0 && spec_grown_len(0, required_blocks as int)
                        == 512 && spec_grown_len(0, required_blocks as int) <= usize::MAX as int
                        / PAGE_SIZE as int ==> forall|f: int|
                        0 <= f < final(self).addressor().frame_table().capacity() ==> final(self).addressor().frame_table().is_set(f) == old(self).addressor().frame_table().is_set(f))
                    &&& final(self).pages_len() == old(self).pages_len()
                    &&& final(self).table_page() == old(self).table_page()
                    &&& forall|p: int|
                        0 <= p < final(self).pages_len() ==> final(self).page_value(p) == old(self).page_value(p)
                    &&& forall|p: int|
                        final(self).addressor().spec_mapping(p) == old(self).addressor().spec_mapping(
                            p,
                        )
                    &&& forall|f: int|
                        0 <= f < old(self).addressor().frame_table().capacity() && old(self).addressor().frame_table().is_set(f) ==> final(self).addressor().frame_table().is_set(f)
                    &&& forall|f: int|
                        0 <= f < final(self).addressor().frame_table().capacity() && !old(self).addressor().frame_table().is_set(f) && final(self).addressor().frame_table().is_set(f) ==> spec_frame_unowned(*final(self), f)
                },
            },
    {
        let ghost pre = *self;
        let cur_len = self.map.pages.len();
        proof {
            crate::pmm::FrameAllocator::lemma_mul_bound(
                cur_len as int,
                PAGE_SIZE as int,
                usize::MAX as int,
            );
            vstd::arithmetic::div_mod::lemma_div_is_ordered(
                required_blocks as int,
                usize::MAX as int,
                64,
            );
            vstd::arithmetic::div_mod::lemma_div_is_ordered_by_denominator(
                usize::MAX as int,
                64,
                PAGE_SIZE as int,
            );
            let q = usize::MAX as int / 64;
            lemma_fundamental_div_mod(usize::MAX as int, 64);
            assert(2 * q + 2 <= 64 * q) by (nonlinear_arith)
                requires
                    q >= 1,
            ;
        }
        let bp = required_blocks / 64 + if required_blocks % 64 != 0 {
            1
        } else {
            0
        };
        let target = cur_len + bp;
        if target > usize::MAX / 2 {
            proof {
                lemma_npot_bounds(target as int);
                vstd::arithmetic::div_mod::lemma_div_is_ordered_by_denominator(
                    usize::MAX as int,
                    2,
                    PAGE_SIZE as int,
                );
                assert(spec_grown_len(cur_len as int, required_blocks as int) >= spec_npot(
                    target as int,
                ));
            }
            return Err(AllocError::OutOfMemory);
        }
        let req_map_len = next_pow2(target);
        let grown = if req_map_len < 512 {
            512
        } else {
            req_map_len
        };
        proof {
            Self::lemma_grown_len(cur_len as int, required_blocks as int);
            assert(grown == spec_grown_len(cur_len as int, required_blocks as int));
        }
        if grown > usize::MAX / 4096 {
            return Err(AllocError::OutOfMemory);
        }
        proof {
            crate::pmm::FrameAllocator::lemma_mul_bound(
                grown as int,
                PAGE_SIZE as int,
                usize::MAX as int,
            );
        }
        let cur_map_pages = cur_len / 512;
        let req_map_pages = grown / 512;
        let dst = match self.find_empty_page_run(req_map_pages) {
            Some(s) => {
                proof {
                    if s == 0 {
                        assert(self.page_empty(0));
                        assert(self.page_full(0));
                    }
                }
                s
            },
            None => {
                if cur_len == 0 {
                    1
                } else {
                    cur_len
                }
            },
        };
        proof {
            assert(dst >= 1);
            assert(dst + req_map_pages <= grown);
            assert forall|p: int| dst <= p < dst + req_map_pages implies p >= cur_len
                || #[trigger] pre.page_empty(p) by {}
            // The old table's pages are full, hence disjoint from `dst`'s run.
            if cur_map_pages > 0 && !(dst + req_map_pages <= pre.table_page() || pre.table_page()
                + cur_map_pages <= dst) {
                let p: int = if pre.table_page() >= dst as int {
                    pre.table_page()
                } else {
                    dst as int
                };
                assert(pre.table_page() <= p < pre.table_page() + cur_map_pages);
                assert(dst <= p < dst + req_map_pages);
                assert(pre.page_full(p));
                assert(p < cur_len);
                assert(pre.page_empty(p));
            }
            assert(cur_map_pages == 0 || dst + req_map_pages <= pre.table_page()
                || pre.table_page() + cur_map_pages <= dst);
        }
        match self.relocate_table(dst, cur_map_pages, req_map_pages, grown) {
            Ok(()) => Ok(()),
            Err(e) => Err(e),
        }
    }

    /// Relocate the map's own table for a growth to `grown` pages, with the
    /// new table hosted at `dst`: copy the old table's mappings over, map the
    /// remainder to fresh frames, extend the storage, mark the new table's
    /// pages full, and release the old ones. All or nothing: on exhaustion
    /// the map is unchanged, though frames taken for the attempt stay
    /// reserved.
    #[verifier::rlimit(100)]
    fn relocate_table(
        &mut self,
        dst: usize,
        cur_map_pages: usize,
        req_map_pages: usize,
        grown: usize,
    ) -> (r: Result<(), AllocError>)
        requires
            old(self).wf(),
            cur_map_pages == old(self).pages_len() / 512,
            req_map_pages == grown as int / 512,
            1 <= dst,
            dst + req_map_pages <= grown,
            req_map_pages >= 1,
            cur_map_pages <= req_map_pages,
            grown >= 512,
            is_pow2(grown as int),
            grown * PAGE_SIZE <= usize::MAX,
            grown > old(self).pages_len(),
            old(self).pages_len() == 0 ==> cur_map_pages == 0,
            old(self).pages_len() > 0 ==> cur_map_pages == old(self).table_pages(),
            forall|p: int|
                dst <= p < dst + req_map_pages ==> p >= old(self).pages_len()
                    || #[trigger] old(self).page_empty(p),
            cur_map_pages == 0 || dst + req_map_pages <= old(self).table_page() || old(self).table_page() + cur_map_pages <= dst,
        ensures
            final(self).wf(),
            final(self).addressor().spec_mapped_offset() == old(self).addressor().spec_mapped_offset(),
            final(self).addressor().frame_table().capacity() == old(self).addressor().frame_table().capacity(),
            final(self).addressor().frame_table().frames() == old(self).addressor().frame_table().frames(),
            match r {
                Ok(()) => {
                    &&& final(self).pages_len() == grown
                    &&& final(self).table_page() == dst
                    &&& grow_preserves(*old(self), *final(self))
                    &&& spec_grow_shape(*old(self), *final(self))
                    &&& spec_unowned_preserved(*old(self), *final(self))
                },
                Err(e) => {
                    &&& e is OutOfMemory
                    &&& spec_frames_exhausted(*final(self))
                    &&& (old(self).pages_len() == 0 && req_map_pages == 1 ==> forall|f: int|
                        0 <= f < final(self).addressor().frame_table().capacity() ==> final(self).addressor().frame_table().is_set(f) == old(self).addressor().frame_table().is_set(f))
                    &&& final(self).pages_len() == old(self).pages_len()
                    &&& final(self).table_page() == old(self).table_page()
                    &&& forall|p: int|
                        0 <= p < final(self).pages_len() ==> final(self).page_value(p) == old(self).page_value(p)
                    &&& forall|p: int|
                        final(self).addressor().spec_mapping(p) == old(self).addressor().spec_mapping(
                            p,
                        )
                    &&& forall|f: int|
                        0 <= f < old(self).addressor().frame_table().capacity() && old(self).addressor().frame_table().is_set(f) ==> final(self).addressor().frame_table().is_set(f)
                    &&& forall|f: int|
                        0 <= f < final(self).addressor().frame_table().capacity() && !old(self).addressor().frame_table().is_set(f) && final(self).addressor().frame_table().is_set(f) ==> spec_frame_unowned(*final(self), f)
                },
            },
    {
        let ghost pre = *self;
        let cur_len = self.map.pages.len();
        // Phase one: duplicate the old table's mappings onto the new pages.
        let table_page = self.map.table_page;
        let mut o: usize = 0;
        while o < cur_map_pages
            invariant
                pre.wf(),
                self.map.pages == pre.map.pages,
                self.map.table_page == pre.map.table_page,
                table_page == pre.table_page(),
                cur_len == pre.pages_len(),
                cur_len > 0 ==> cur_map_pages == pre.table_pages(),
                cur_len == 0 ==> cur_map_pages == 0,
                o <= cur_map_pages,
                dst >= 1,
                dst + req_map_pages <= grown,
                req_map_pages >= 1,
                cur_map_pages <= req_map_pages,
                grown * PAGE_SIZE <= usize::MAX,
                grown > cur_len,
                forall|p: int| dst <= p < dst + req_map_pages ==> p >= cur_len || #[trigger] pre.page_empty(p),
                cur_map_pages == 0 || dst + req_map_pages <= pre.table_page() || pre.table_page()
                    + cur_map_pages <= dst,
                self.map.addressor.wf(),
                self.map.addressor.is_active(),
                self.map.addressor.spec_mapped_offset() == pre.addressor().spec_mapped_offset(),
                self.map.addressor.frame_table() == pre.addressor().frame_table(),
                forall|p: int|
                    dst <= p < dst + o ==> self.map.addressor.spec_mapping(p)
                        == pre.addressor().spec_mapping(pre.table_page() + (p - dst)),
                forall|p: int|
                    !(dst <= p < dst + o) ==> self.map.addressor.spec_mapping(p)
                        == pre.addressor().spec_mapping(p),
            decreases cur_map_pages - o,
        {
            let d = dst + o;
            proof {
                assert(pre.page_full(pre.table_page() + o as int));
                assert(!pre.page_empty(pre.table_page() + o as int));
                assert(pre.addressor().is_mapped(pre.table_page() + o as int));
                assert(!(dst <= table_page + o < dst + req_map_pages));
                assert(self.map.addressor.spec_mapping((table_page + o) as int)
                    == pre.addressor().spec_mapping(pre.table_page() + o as int));
                // the destination page is still unmapped
                assert(self.map.addressor.spec_mapping(d as int) == pre.addressor().spec_mapping(
                    d as int,
                ));
                if pre.addressor().is_mapped(d as int) {
                    assert(d < cur_len && !pre.page_empty(d as int));
                }
            }
            let res = self.map.addressor.copy_by_map(table_page + o, d);
            proof {
                assert(res is Ok);
            }
            o += 1;
        }
        // Phase two: map the rest of the new table to fresh frames. If the
        // frame table runs dry, undo the copies too and report exhaustion.
        let ghost after_copy = *self;
        proof {
            assert forall|p: int|
                dst + cur_map_pages <= p < dst + req_map_pages implies !self.map.addressor.is_mapped(
                p,
            ) by {
                assert(self.map.addressor.spec_mapping(p) == pre.addressor().spec_mapping(p));
                if pre.addressor().is_mapped(p) {
                    assert(p < cur_len && !pre.page_empty(p));
                }
            }
        }
        let res = self.map.addressor.automap_range(
            dst + cur_map_pages,
            req_map_pages - cur_map_pages,
        );
        if res.is_err() {
            proof {
                if old(self).pages_len() == 0 && req_map_pages == 1 {
                    assert(cur_map_pages == 0);
                    assert(after_copy.map.addressor.frame_table()
                        == pre.addressor().frame_table());
                    assert forall|f: int|
                        0 <= f < self.map.addressor.frame_table().capacity() implies
                    self.map.addressor.frame_table().is_set(f) == old(self).addressor().frame_table().is_set(f) by {
                        assert(self.map.addressor.frame_table().is_set(f)
                            == after_copy.map.addressor.frame_table().is_set(f));
                    }
                }
                assert forall|p: int|
                    dst <= p < dst + cur_map_pages implies #[trigger] self.map.addressor.spec_mapping(
                    p,
                ) is Some by {
                    assert(self.map.addressor.spec_mapping(p)
                        == after_copy.map.addressor.spec_mapping(p));
                    assert(after_copy.map.addressor.spec_mapping(p)
                        == pre.addressor().spec_mapping(pre.table_page() + (p - dst)));
                    assert(pre.page_full(pre.table_page() + (p - dst)));
                    assert(!pre.page_empty(pre.table_page() + (p - dst)));
                    assert(pre.addressor().is_mapped(pre.table_page() + (p - dst)));
                }
                assert forall|p: int|
                    !(dst <= p < dst + cur_map_pages) implies self.map.addressor.spec_mapping(p)
                        == pre.addressor().spec_mapping(p) by {
                    assert(self.map.addressor.spec_mapping(p)
                        == after_copy.map.addressor.spec_mapping(p));
                }
            }
            // Roll the copies back; the state returns to what it was.
            let mut k: usize = 0;
            while k < cur_map_pages
                invariant
                    pre.wf(),
                    self.map.pages == pre.map.pages,
                    self.map.table_page == pre.map.table_page,
                    forall|f: int|
                        0 <= f < self.map.addressor.frame_table().capacity()
                            ==> #[trigger] self.map.addressor.frame_table().is_set(f),
                    k <= cur_map_pages,
                    cur_map_pages <= req_map_pages,
                    dst >= 1,
                    dst + req_map_pages <= grown,
                    cur_len == pre.pages_len(),
                    forall|p: int|
                        dst <= p < dst + req_map_pages ==> p >= cur_len || #[trigger] pre.page_empty(
                            p,
                        ),
                    self.map.addressor.wf(),
                    self.map.addressor.is_active(),
                    self.map.addressor.spec_mapped_offset() == pre.addressor().spec_mapped_offset(),
                    self.map.addressor.frame_table().capacity()
                        == pre.addressor().frame_table().capacity(),
                    self.map.addressor.frame_table().frames()
                        == pre.addressor().frame_table().frames(),
                    forall|f: int|
                        0 <= f < pre.addressor().frame_table().capacity()
                            && pre.addressor().frame_table().is_set(f)
                            ==> self.map.addressor.frame_table().is_set(f),
                    forall|p: int|
                        dst + k <= p < dst + cur_map_pages
                            ==> #[trigger] self.map.addressor.spec_mapping(p) is Some,
                    forall|p: int|
                        dst <= p < dst + k ==> #[trigger] self.map.addressor.spec_mapping(
                            p,
                        ) is None,
                    forall|p: int|
                        !(dst <= p < dst + cur_map_pages) ==> self.map.addressor.spec_mapping(p)
                            == pre.addressor().spec_mapping(p),
                decreases cur_map_pages - k,
            {
                let res2 = self.map.addressor.unmap(dst + k, false);
                proof {
                    assert(res2 is Ok);
                }
                k += 1;
            }
            proof {
                assert forall|p: int| self.map.addressor.spec_mapping(p)
                    == pre.addressor().spec_mapping(p) by {
                    if dst <= p < dst + cur_map_pages {
                        assert(self.map.addressor.spec_mapping(p) is None);
                        if pre.addressor().is_mapped(p) {
                            assert(p < cur_len && !pre.page_empty(p));
                        }
                    }
                }
                Self::lemma_same_state_wf(pre, *self);
                // any frame the failed attempt left locked backs no mapping
                assert forall|f: int|
                    0 <= f < self.addressor().frame_table().capacity()
                        && !pre.addressor().frame_table().is_set(f)
                        && self.addressor().frame_table().is_set(f) implies spec_frame_unowned(
                    *self,
                    f,
                ) by {
                    assert forall|q: int|
                        #[trigger] self.addressor().spec_mapping(q) is Some implies
                    self.addressor().spec_mapping(q)->0.frame != f by {
                        assert(self.addressor().spec_mapping(q)
                            == pre.addressor().spec_mapping(q));
                        pre.map.addressor.lemma_mapped_frame_set(q);
                        assert(pre.addressor().frame_table().is_set(
                            pre.addressor().spec_mapping(q)->0.frame as int,
                        ));
                    }
                }
            }
            return Err(AllocError::OutOfMemory);
        }
        proof {
            assert forall|p: int|
                dst + cur_map_pages <= p < dst + req_map_pages
                    implies #[trigger] self.map.addressor.spec_mapping(p) is Some by {}
            assert forall|p: int|
                dst <= p < dst + cur_map_pages implies self.map.addressor.spec_mapping(p)
                    == pre.addressor().spec_mapping(pre.table_page() + (p - dst)) by {
                assert(self.map.addressor.spec_mapping(p)
                    == after_copy.map.addressor.spec_mapping(p));
            }
            assert forall|p: int|
                !(dst <= p < dst + req_map_pages) implies self.map.addressor.spec_mapping(p)
                    == pre.addressor().spec_mapping(p) by {
                assert(self.map.addressor.spec_mapping(p)
                    == after_copy.map.addressor.spec_mapping(p));
            }
            assert forall|p: int, q: int|
                dst + cur_map_pages <= p < dst + req_map_pages && q != p
                    && #[trigger] self.map.addressor.spec_mapping(q) is Some
                    && #[trigger] self.map.addressor.spec_mapping(p) is Some implies
                self.map.addressor.spec_mapping(q)->0.frame != self.map.addressor.spec_mapping(
                p,
            )->0.frame by {}
        }

        let ghost mapped_state = *self;
        self.commit_relocation(dst, cur_map_pages, req_map_pages, grown, Ghost(pre));
        proof {
            assert forall|g: int, p: int|
                0 <= g && #[trigger] pre.addressor().frame_table().is_set(g) && spec_frame_unowned(
                    pre,
                    g,
                ) && #[trigger] self.map.addressor.spec_mapping(p) is Some implies
                self.map.addressor.spec_mapping(p)->0.frame != g by {
                let otp = pre.table_page();
                if pre.pages_len() > 0 && otp <= p < otp + cur_map_pages {
                    assert(self.map.addressor.spec_mapping(p) is None);
                } else {
                    assert(self.map.addressor.spec_mapping(p)
                        == mapped_state.map.addressor.spec_mapping(p));
                    if dst <= p < dst + cur_map_pages {
                        let src = pre.table_page() + (p - dst);
                        assert(mapped_state.map.addressor.spec_mapping(p)
                            == pre.addressor().spec_mapping(src));
                        assert(pre.addressor().spec_mapping(src) is Some);
                    } else if dst + cur_map_pages <= p < dst + req_map_pages {
                        let fr = mapped_state.map.addressor.spec_mapping(p)->0.frame;
                        assert(!after_copy.map.addressor.frame_table().is_set(fr as int));
                        assert(after_copy.map.addressor.frame_table()
                            == pre.addressor().frame_table());
                    } else {
                        assert(mapped_state.map.addressor.spec_mapping(p)
                            == pre.addressor().spec_mapping(p));
                    }
                }
            }
        }
        Ok(())
    }

    /// Commit a relocation whose mappings are already in place: extend the
    /// storage, mark the new table's pages full, release the old table's
    /// pages, and swap the bookkeeping in.
    #[verifier::rlimit(100)]
    fn commit_relocation(
        &mut self,
        dst: usize,
        cur_map_pages: usize,
        req_map_pages: usize,
        grown: usize,
        Ghost(pre): Ghost<BlockAllocator>,
    )
        requires
            pre.wf(),
            cur_map_pages == pre.pages_len() / 512,
            req_map_pages == grown as int / 512,
            1 <= dst,
            dst + req_map_pages <= grown,
            req_map_pages >= 1,
            cur_map_pages <= req_map_pages,
            grown >= 512,
            is_pow2(grown as int),
            grown * PAGE_SIZE <= usize::MAX,
            grown > pre.pages_len(),
            pre.pages_len() == 0 ==> cur_map_pages == 0,
            pre.pages_len() > 0 ==> cur_map_pages == pre.table_pages(),
            forall|p: int|
                dst <= p < dst + req_map_pages ==> p >= pre.pages_len() || #[trigger] pre.page_empty(
                    p,
                ),
            cur_map_pages == 0 || dst + req_map_pages <= pre.table_page() || pre.table_page()
                + cur_map_pages <= dst,
            old(self).map.pages == pre.map.pages,
            old(self).map.table_page == pre.map.table_page,
            old(self).map.addressor.wf(),
            old(self).map.addressor.is_active(),
            old(self).map.addressor.spec_mapped_offset() == pre.addressor().spec_mapped_offset(),
            old(self).map.addressor.frame_table().capacity()
                == pre.addressor().frame_table().capacity(),
            old(self).map.addressor.frame_table().frames()
                == pre.addressor().frame_table().frames(),
            forall|f: int|
                0 <= f < pre.addressor().frame_table().capacity()
                    && pre.addressor().frame_table().is_set(f) ==> old(self).map.addressor.frame_table().is_set(f),
            forall|p: int|
                dst + cur_map_pages <= p < dst + req_map_pages ==> #[trigger] old(self).map.addressor.spec_mapping(p) is Some,
            forall|p: int|
                dst <= p < dst + cur_map_pages ==> old(self).map.addressor.spec_mapping(p)
                    == pre.addressor().spec_mapping(pre.table_page() + (p - dst)),
            forall|p: int|
                !(dst <= p < dst + req_map_pages) ==> old(self).map.addressor.spec_mapping(p)
                    == pre.addressor().spec_mapping(p),
            forall|p: int, q: int|
                dst + cur_map_pages <= p < dst + req_map_pages && q != p && #[trigger] old(self).map.addressor.spec_mapping(q) is Some && #[trigger] old(self).map.addressor.spec_mapping(p) is Some ==> old(self).map.addressor.spec_mapping(
                    q,
                )->0.frame != old(self).map.addressor.spec_mapping(p)->0.frame,
        ensures
            final(self).wf(),
            final(self).addressor().spec_mapped_offset() == pre.addressor().spec_mapped_offset(),
            final(self).addressor().frame_table().capacity()
                == pre.addressor().frame_table().capacity(),
            final(self).addressor().frame_table().frames()
                == pre.addressor().frame_table().frames(),
            final(self).pages_len() == grown,
            final(self).table_page() == dst,
            grow_preserves(pre, *final(self)),
            spec_grow_shape(pre, *final(self)),
            forall|p: int|
                pre.pages_len() > 0 && pre.table_page() <= p < pre.table_page() + cur_map_pages
                    ==> #[trigger] final(self).map.addressor.spec_mapping(p) is None,
            forall|p: int|
                !(pre.pages_len() > 0 && pre.table_page() <= p < pre.table_page() + cur_map_pages)
                    ==> final(self).map.addressor.spec_mapping(p) == old(self).map.addressor.spec_mapping(p),
    {
        let ghost mapped = *self;
        let table_page = self.map.table_page;
        let cur_len = self.map.pages.len();
        proof {
            crate::pmm::FrameAllocator::lemma_mul_bound(
                grown as int,
                PAGE_SIZE as int,
                usize::MAX as int,
            );
        }
        // Phase three: extend the table storage and swap the bookkeeping in.
        while self.map.pages.len() < grown
            invariant
                cur_len <= self.map.pages@.len() <= grown,
                self.map.addressor == mapped.map.addressor,
                self.map.table_page == mapped.map.table_page,
                forall|p: int| 0 <= p < cur_len ==> self.page_value(p) == pre.page_value(p),
                forall|p: int| cur_len <= p < self.map.pages@.len() ==> self.page_value(p) == 0,
                cur_len == pre.pages_len(),
            decreases grown - self.map.pages@.len(),
        {
            let ghost snap = *self;
            self.map.pages.push(BlockPage(0));
            proof {
                assert forall|p: int| 0 <= p < cur_len implies self.page_value(p)
                    == pre.page_value(p) by {
                    assert(self.page_value(p) == snap.page_value(p));
                }
                assert forall|p: int| cur_len <= p < self.map.pages@.len() implies self.page_value(
                    p,
                ) == 0 by {
                    if p < snap.map.pages@.len() {
                        assert(self.page_value(p) == snap.page_value(p));
                    } else {
                        assert(self.page_value(p) == BlockPage(0).spec_value());
                    }
                }
            }
        }
        // Mark the new table's pages full.
        let mut o3: usize = 0;
        while o3 < req_map_pages
            invariant
                o3 <= req_map_pages,
                dst >= 1,
                dst + req_map_pages <= grown,
                cur_len <= grown,
                self.map.pages@.len() == grown,
                self.map.addressor == mapped.map.addressor,
                self.map.table_page == mapped.map.table_page,
                cur_len == pre.pages_len(),
                forall|p: int|
                    0 <= p < cur_len && !(dst <= p < dst + o3) ==> self.page_value(p)
                        == pre.page_value(p),
                forall|p: int|
                    cur_len <= p < grown && !(dst <= p < dst + o3) ==> self.page_value(p) == 0,
                forall|p: int| dst <= p < dst + o3 ==> self.page_value(p) == u64::MAX,
            decreases req_map_pages - o3,
        {
            let ghost snap = *self;
            self.map.pages[dst + o3] = BlockPage(u64::MAX);
            proof {
                assert forall|p: int|
                    0 <= p < grown && p != dst + o3 implies self.page_value(p) == snap.page_value(
                        p,
                    ) by {}
                assert(self.page_value(dst + o3 as int) == u64::MAX);
                assert forall|p: int|
                    0 <= p < cur_len && !(dst <= p < dst + o3 + 1) implies self.page_value(p)
                        == pre.page_value(p) by {
                    assert(self.page_value(p) == snap.page_value(p));
                }
                assert forall|p: int|
                    cur_len <= p < grown && !(dst <= p < dst + o3 + 1) implies self.page_value(p)
                        == 0 by {
                    assert(self.page_value(p) == snap.page_value(p));
                }
                assert forall|p: int| dst <= p < dst + o3 + 1 implies self.page_value(p)
                    == u64::MAX by {
                    if p != dst + o3 {
                        assert(self.page_value(p) == snap.page_value(p));
                    }
                }
            }
            o3 += 1;
        }
        self.release_old_table(dst, cur_map_pages, req_map_pages, grown, cur_len, Ghost(pre), Ghost(mapped));
    }

    /// The last step of a relocation: release the old table's pages, point
    /// the bookkeeping at the new table, and re-establish well-formedness.
    #[verifier::rlimit(100)]
    fn release_old_table(
        &mut self,
        dst: usize,
        cur_map_pages: usize,
        req_map_pages: usize,
        grown: usize,
        cur_len: usize,
        Ghost(pre): Ghost<BlockAllocator>,
        Ghost(mapped): Ghost<BlockAllocator>,
    )
        requires
            pre.wf(),
            cur_len == pre.pages_len(),
            cur_map_pages == pre.pages_len() / 512,
            req_map_pages == grown as int / 512,
            1 <= dst,
            dst + req_map_pages <= grown,
            req_map_pages >= 1,
            cur_map_pages <= req_map_pages,
            grown >= 512,
            is_pow2(grown as int),
            grown * PAGE_SIZE <= usize::MAX,
            grown > pre.pages_len(),
            pre.pages_len() == 0 ==> cur_map_pages == 0,
            pre.pages_len() > 0 ==> cur_map_pages == pre.table_pages(),
            forall|p: int|
                dst <= p < dst + req_map_pages ==> p >= pre.pages_len() || #[trigger] pre.page_empty(
                    p,
                ),
            cur_map_pages == 0 || dst + req_map_pages <= pre.table_page() || pre.table_page()
                + cur_map_pages <= dst,
            mapped.map.pages == pre.map.pages,
            mapped.map.table_page == pre.map.table_page,
            mapped.map.addressor.wf(),
            mapped.map.addressor.is_active(),
            mapped.map.addressor.spec_mapped_offset() == pre.addressor().spec_mapped_offset(),
            mapped.map.addressor.frame_table().capacity()
                == pre.addressor().frame_table().capacity(),
            mapped.map.addressor.frame_table().frames() == pre.addressor().frame_table().frames(),
            forall|f: int|
                0 <= f < pre.addressor().frame_table().capacity()
                    && pre.addressor().frame_table().is_set(f)
                    ==> mapped.map.addressor.frame_table().is_set(f),
            forall|p: int|
                dst + cur_map_pages <= p < dst + req_map_pages
                    ==> #[trigger] mapped.map.addressor.spec_mapping(p) is Some,
            forall|p: int|
                dst <= p < dst + cur_map_pages ==> mapped.map.addressor.spec_mapping(p)
                    == pre.addressor().spec_mapping(pre.table_page() + (p - dst)),
            forall|p: int|
                !(dst <= p < dst + req_map_pages) ==> mapped.map.addressor.spec_mapping(p)
                    == pre.addressor().spec_mapping(p),
            forall|p: int, q: int|
                dst + cur_map_pages <= p < dst + req_map_pages && q != p
                    && #[trigger] mapped.map.addressor.spec_mapping(q) is Some
                    && #[trigger] mapped.map.addressor.spec_mapping(p) is Some
                    ==> mapped.map.addressor.spec_mapping(q)->0.frame
                    != mapped.map.addressor.spec_mapping(p)->0.frame,
            old(self).map.addressor == mapped.map.addressor,
            old(self).map.table_page == mapped.map.table_page,
            old(self).map.pages@.len() == grown,
            forall|p: int|
                0 <= p < pre.pages_len() && !(dst <= p < dst + req_map_pages) ==> old(self).page_value(p) == pre.page_value(p),
            forall|p: int|
                pre.pages_len() <= p < grown && !(dst <= p < dst + req_map_pages) ==> old(self).page_value(p) == 0,
            forall|p: int| dst <= p < dst + req_map_pages ==> old(self).page_value(p) == u64::MAX,
        ensures
            final(self).wf(),
            final(self).addressor().spec_mapped_offset() == pre.addressor().spec_mapped_offset(),
            final(self).addressor().frame_table().capacity()
                == pre.addressor().frame_table().capacity(),
            final(self).addressor().frame_table().frames()
                == pre.addressor().frame_table().frames(),
            final(self).pages_len() == grown,
            final(self).table_page() == dst,
            grow_preserves(pre, *final(self)),
            spec_grow_shape(pre, *final(self)),
            forall|p: int|
                pre.pages_len() > 0 && pre.table_page() <= p < pre.table_page() + cur_map_pages
                    ==> #[trigger] final(self).map.addressor.spec_mapping(p) is None,
            forall|p: int|
                !(pre.pages_len() > 0 && pre.table_page() <= p < pre.table_page() + cur_map_pages)
                    ==> final(self).map.addressor.spec_mapping(p)
                    == mapped.map.addressor.spec_mapping(p),
    {
        let table_page = self.map.table_page;
        self.clear_old_table(dst, cur_map_pages, req_map_pages, grown, cur_len, table_page,
            Ghost(pre), Ghost(mapped));
        let ghost cleared = *self;
        if cur_len == 0 {
            self.map.pages[0] = BlockPage(u64::MAX);
        }
        self.map.table_page = dst;
        proof {
            assert forall|p: int|
                0 <= p < grown && !(cur_len == 0 && p == 0) implies #[trigger] self.page_value(p)
                    == cleared.page_value(p) by {}
            Self::lemma_commit_translate(pre, mapped, cleared, *self, dst as int,
                cur_map_pages as int, req_map_pages as int, grown as int, cur_len as int,
                table_page as int);
            Self::lemma_grow_commit(pre, mapped, *self, dst as int, cur_map_pages as int,
                req_map_pages as int, grown as int);
        }
    }

    /// Translates the cleared state's page and mapping facts to the final,
    /// swapped-in state.
    proof fn lemma_commit_translate(
        pre: BlockAllocator,
        mapped: BlockAllocator,
        cleared: BlockAllocator,
        now: BlockAllocator,
        dst: int,
        cmp: int,
        rmp: int,
        grown: int,
        cur_len: int,
        table_page: int,
    )
        requires
            cur_len == pre.pages_len(),
            table_page == pre.table_page(),
            1 <= dst,
            dst + rmp <= grown,
            rmp >= 1,
            cmp <= rmp,
            0 <= cmp,
            cur_len <= grown,
            cur_len > 0 ==> table_page >= 1,
            cur_len > 0 ==> table_page + cmp <= cur_len,
            cur_len == 0 ==> cmp == 0,
            forall|p: int|
                table_page <= p < table_page + cmp ==> #[trigger] cleared.map.addressor.spec_mapping(
                    p,
                ) is None,
            forall|p: int|
                !(table_page <= p < table_page + cmp) ==> cleared.map.addressor.spec_mapping(p)
                    == mapped.map.addressor.spec_mapping(p),
            forall|p: int| dst <= p < dst + rmp ==> cleared.page_value(p) == u64::MAX,
            forall|p: int|
                0 <= p < cur_len && !(dst <= p < dst + rmp) && !(table_page <= p < table_page
                    + cmp) ==> cleared.page_value(p) == pre.page_value(p),
            forall|p: int|
                cur_len <= p < grown && !(dst <= p < dst + rmp) ==> cleared.page_value(p) == 0,
            forall|p: int| table_page <= p < table_page + cmp ==> cleared.page_value(p) == 0,
            now.map.addressor == cleared.map.addressor,
            now.pages_len() == grown,
            forall|p: int|
                0 <= p < grown && !(cur_len == 0 && p == 0) ==> #[trigger] now.page_value(p)
                    == cleared.page_value(p),
            cur_len == 0 ==> now.page_value(0) == u64::MAX,
        ensures
            forall|p: int|
                pre.pages_len() > 0 && pre.table_page() <= p < pre.table_page() + cmp
                    ==> #[trigger] now.map.addressor.spec_mapping(p) is None,
            forall|p: int|
                !(pre.pages_len() > 0 && pre.table_page() <= p < pre.table_page() + cmp)
                    ==> now.map.addressor.spec_mapping(p) == mapped.map.addressor.spec_mapping(p),
            forall|p: int| dst <= p < dst + rmp ==> now.page_value(p) == u64::MAX,
            forall|p: int|
                0 <= p < pre.pages_len() && !(dst <= p < dst + rmp) && !(pre.pages_len() > 0
                    && pre.table_page() <= p < pre.table_page() + cmp) ==> now.page_value(p)
                    == pre.page_value(p),
            forall|p: int|
                pre.pages_len() <= p < grown && !(dst <= p < dst + rmp) && !(pre.pages_len() == 0
                    && p == 0) ==> now.page_value(p) == 0,
            forall|p: int|
                pre.pages_len() > 0 && pre.table_page() <= p < pre.table_page() + cmp
                    ==> now.page_value(p) == 0,
            pre.pages_len() == 0 ==> now.page_value(0) == u64::MAX,
    {
        assert forall|p: int|
            pre.pages_len() > 0 && pre.table_page() <= p < pre.table_page() + cmp implies
            #[trigger] now.map.addressor.spec_mapping(p) is None by {
            assert(cleared.map.addressor.spec_mapping(p) is None);
        }
        assert forall|p: int|
            !(pre.pages_len() > 0 && pre.table_page() <= p < pre.table_page() + cmp) implies
            now.map.addressor.spec_mapping(p) == mapped.map.addressor.spec_mapping(p) by {
            if table_page <= p < table_page + cmp {
                assert(cmp > 0);
                assert(cur_len > 0);
                assert(pre.pages_len() > 0);
            } else {
                assert(cleared.map.addressor.spec_mapping(p)
                    == mapped.map.addressor.spec_mapping(p));
            }
        }
        assert forall|p: int| dst <= p < dst + rmp implies #[trigger] now.page_value(p)
            == u64::MAX by {
            assert(!(cur_len == 0 && p == 0));
            assert(now.page_value(p) == cleared.page_value(p));
        }
        assert forall|p: int|
            0 <= p < pre.pages_len() && !(dst <= p < dst + rmp) && !(pre.pages_len() > 0
                && pre.table_page() <= p < pre.table_page() + cmp) implies #[trigger] now.page_value(
            p,
        ) == pre.page_value(p) by {
            assert(cur_len > 0);
            assert(p < grown);
            assert(!(cur_len == 0 && p == 0));
            assert(now.page_value(p) == cleared.page_value(p));
            assert(!(table_page <= p < table_page + cmp));
            assert(cleared.page_value(p) == pre.page_value(p));
        }
        assert forall|p: int|
            pre.pages_len() <= p < grown && !(dst <= p < dst + rmp) && !(pre.pages_len() == 0 && p
                == 0) implies #[trigger] now.page_value(p) == 0 by {
            assert(p < grown);
            assert(!(cur_len == 0 && p == 0));
            assert(now.page_value(p) == cleared.page_value(p));
            assert(cleared.page_value(p) == 0);
        }
        assert forall|p: int|
            pre.pages_len() > 0 && pre.table_page() <= p < pre.table_page() + cmp implies
            #[trigger] now.page_value(p) == 0 by {
            assert(p < grown);
            assert(!(cur_len == 0 && p == 0));
            assert(now.page_value(p) == cleared.page_value(p));
            assert(cleared.page_value(p) == 0);
        }
    }

    /// Unmap the old table's pages and clear their occupancy; the frames now
    /// belong to the relocated copies.
    #[verifier::rlimit(100)]
    fn clear_old_table(
        &mut self,
        dst: usize,
        cur_map_pages: usize,
        req_map_pages: usize,
        grown: usize,
        cur_len: usize,
        table_page: usize,
        Ghost(pre): Ghost<BlockAllocator>,
        Ghost(mapped): Ghost<BlockAllocator>,
    )
        requires
            pre.wf(),
            cur_len == pre.pages_len(),
            cur_map_pages == pre.pages_len() / 512,
            req_map_pages == grown as int / 512,
            1 <= dst,
            dst + req_map_pages <= grown,
            req_map_pages >= 1,
            cur_map_pages <= req_map_pages,
            grown >= 512,
            grown * PAGE_SIZE <= usize::MAX,
            grown > pre.pages_len(),
            table_page == pre.table_page(),
            pre.pages_len() == 0 ==> cur_map_pages == 0,
            pre.pages_len() > 0 ==> cur_map_pages == pre.table_pages(),
            cur_map_pages == 0 || dst + req_map_pages <= pre.table_page() || pre.table_page()
                + cur_map_pages <= dst,
            old(self).map.addressor == mapped.map.addressor,
            mapped.map.addressor.wf(),
            mapped.map.addressor.is_active(),
            mapped.map.addressor.spec_mapped_offset() == pre.addressor().spec_mapped_offset(),
            forall|p: int|
                !(dst <= p < dst + req_map_pages) ==> mapped.map.addressor.spec_mapping(p)
                    == pre.addressor().spec_mapping(p),
            old(self).map.table_page == pre.map.table_page,
            old(self).map.pages@.len() == grown,
            forall|p: int|
                0 <= p < cur_len && !(dst <= p < dst + req_map_pages) ==> old(self).page_value(p)
                    == pre.page_value(p),
            forall|p: int|
                cur_len <= p < grown && !(dst <= p < dst + req_map_pages) ==> old(self).page_value(
                    p,
                ) == 0,
            forall|p: int| dst <= p < dst + req_map_pages ==> old(self).page_value(p) == u64::MAX,
        ensures
            final(self).map.pages@.len() == grown,
            final(self).map.table_page == old(self).map.table_page,
            final(self).map.addressor.wf(),
            final(self).map.addressor.is_active(),
            final(self).map.addressor.spec_mapped_offset() == pre.addressor().spec_mapped_offset(),
            final(self).map.addressor.frame_table() == mapped.map.addressor.frame_table(),
            forall|p: int|
                table_page <= p < table_page + cur_map_pages ==> #[trigger] final(self).map.addressor.spec_mapping(p) is None,
            forall|p: int|
                !(table_page <= p < table_page + cur_map_pages) ==> final(self).map.addressor.spec_mapping(p) == mapped.map.addressor.spec_mapping(p),
            forall|p: int| dst <= p < dst + req_map_pages ==> final(self).page_value(p)
                == u64::MAX,
            forall|p: int|
                0 <= p < cur_len && !(dst <= p < dst + req_map_pages) && !(table_page <= p
                    < table_page + cur_map_pages) ==> final(self).page_value(p) == pre.page_value(
                    p,
                ),
            forall|p: int|
                cur_len <= p < grown && !(dst <= p < dst + req_map_pages) ==> final(self).page_value(p) == 0,
            forall|p: int|
                table_page <= p < table_page + cur_map_pages ==> final(self).page_value(p) == 0,
    {
        // Unmap the old table's pages and clear their occupancy: the frames
        // now belong to the copies.
        let mut o4: usize = 0;
        while o4 < cur_map_pages
            invariant
                pre.wf(),
                o4 <= cur_map_pages,
                cur_map_pages <= req_map_pages,
                dst >= 1,
                dst + req_map_pages <= grown,
                cur_len <= grown,
                self.map.pages@.len() == grown,
                self.map.table_page == pre.map.table_page,
                cur_len == pre.pages_len(),
                cur_len > 0 ==> cur_map_pages == pre.table_pages(),
                table_page == pre.table_page(),
                cur_len > 0 ==> pre.table_page() + pre.table_pages() <= cur_len,
                cur_len > 0 ==> pre.table_page() >= 1,
                cur_len == 0 ==> cur_map_pages == 0,
                forall|p: int|
                    !(dst <= p < dst + req_map_pages) ==> mapped.map.addressor.spec_mapping(p)
                        == pre.addressor().spec_mapping(p),
                cur_map_pages == 0 || dst + req_map_pages <= pre.table_page() || pre.table_page()
                    + cur_map_pages <= dst,
                self.map.addressor.wf(),
                self.map.addressor.is_active(),
                self.map.addressor.spec_mapped_offset() == pre.addressor().spec_mapped_offset(),
                self.map.addressor.frame_table() == mapped.map.addressor.frame_table(),
                forall|p: int|
                    table_page <= p < table_page + o4 ==> #[trigger] self.map.addressor.spec_mapping(
                        p,
                    ) is None,
                forall|p: int|
                    !(table_page <= p < table_page + o4) ==> self.map.addressor.spec_mapping(p)
                        == mapped.map.addressor.spec_mapping(p),
                forall|p: int| dst <= p < dst + req_map_pages ==> self.page_value(p) == u64::MAX,
                forall|p: int|
                    0 <= p < cur_len && !(dst <= p < dst + req_map_pages) && !(table_page <= p
                        < table_page + o4) ==> self.page_value(p) == pre.page_value(p),
                forall|p: int|
                    cur_len <= p < grown && !(dst <= p < dst + req_map_pages) ==> self.page_value(
                        p,
                    ) == 0,
                forall|p: int| table_page <= p < table_page + o4 ==> self.page_value(p) == 0,
            decreases cur_map_pages - o4,
        {
            let ghost start = *self;
            proof {
                assert(mapped.map.addressor.spec_mapping(table_page + o4 as int)
                    == pre.addressor().spec_mapping(pre.table_page() + o4 as int));
                assert(pre.page_full(pre.table_page() + o4 as int));
                assert(!pre.page_empty(pre.table_page() + o4 as int));
                assert(pre.addressor().is_mapped(pre.table_page() + o4 as int));
            }
            let res = self.map.addressor.unmap(table_page + o4, false);
            proof {
                assert(res is Ok);
            }
            let ghost snap = *self;
            self.map.pages[table_page + o4] = BlockPage(0);
            proof {
                assert forall|p: int|
                    0 <= p < grown && p != table_page + o4 implies self.page_value(p)
                        == start.page_value(p) by {
                    assert(self.page_value(p) == snap.page_value(p));
                    assert(snap.page_value(p) == start.page_value(p));
                }
                assert(self.page_value(table_page + o4 as int) == 0);
                assert forall|p: int| dst <= p < dst + req_map_pages implies self.page_value(p)
                    == u64::MAX by {
                    assert(p != table_page + o4);
                    assert(self.page_value(p) == start.page_value(p));
                }
                assert forall|p: int|
                    0 <= p < cur_len && !(dst <= p < dst + req_map_pages) && !(table_page <= p
                        < table_page + o4 + 1) implies self.page_value(p) == pre.page_value(p) by {
                    assert(self.page_value(p) == start.page_value(p));
                }
                assert forall|p: int|
                    cur_len <= p < grown && !(dst <= p < dst + req_map_pages) implies
                    self.page_value(p) == 0 by {
                    if p != table_page + o4 {
                        assert(self.page_value(p) == start.page_value(p));
                    }
                }
                assert forall|p: int| table_page <= p < table_page + o4 + 1 implies
                    self.page_value(p) == 0 by {
                    if p != table_page + o4 {
                        assert(self.page_value(p) == start.page_value(p));
                    }
                }
            }
            o4 += 1;
        }
    }

    /// Find the lowest `stride`-aligned run of `n` free blocks: a first-fit
    /// scan over the occupancy bitmap, skipping full pages whole.
    fn find_block_run(&self, n: usize, stride: usize) -> (r: Option<usize>)
        requires
            self.wf(),
            n >= 1,
            stride >= 1,
        ensures
            match r {
                Some(sb) => {
                    &&& sb % stride == 0
                    &&& sb + n <= self.pages_len() * 64
                    &&& forall|b: int| sb <= b < sb + n ==> !self.block(b)
                    &&& forall|t: int|
                        0 <= t < sb && #[trigger] (t % (stride as int)) == 0 ==> exists|b: int|
                            t <= b < t + n && self.block(b)
                },
                None => forall|t: int|
                    0 <= t && #[trigger] (t % (stride as int)) == 0 && t + n <= self.pages_len()
                        * 64 ==> exists|b: int| t <= b < t + n && self.block(b),
            },
    {
        proof {
            crate::pmm::FrameAllocator::lemma_mul_bound(
                self.pages_len(),
                PAGE_SIZE as int,
                usize::MAX as int,
            );
            assert(self.pages_len() * 64 <= self.pages_len() * PAGE_SIZE) by (nonlinear_arith)
                requires
                    self.pages_len() >= 0,
            ;
        }
        let total = self.map.pages.len() * 64;
        if n > total {
            return None;
        }
        let mut s: usize = 0;
        loop
            invariant
                self.wf(),
                total == self.pages_len() * 64,
                1 <= n <= total,
                stride >= 1,
                s <= total,
                s % stride == 0,
                forall|t: int|
                    0 <= t < s && #[trigger] (t % (stride as int)) == 0 ==> exists|b: int|
                        t <= b < t + n && #[trigger] self.block(b),
            ensures
                s % stride == 0,
                forall|t: int|
                    0 <= t < s && #[trigger] (t % (stride as int)) == 0 ==> exists|b: int|
                        t <= b < t + n && #[trigger] self.block(b),
                s + n > total,
            decreases total - s,
        {
            if s > total - n {
                break ;
            }
            // Full pages block every window that starts inside them.
            if stride == 1 && s % 64 == 0 && total - s >= 64 {
                proof {
                    self.lemma_page_of_block(s as int);
                }
                if self.map.pages[s / 64].is_full() {
                    proof {
                        self.lemma_empty_page_blocks(s as int / 64);
                        assert forall|t: int|
                            s <= t < s + 64 && #[trigger] (t % (stride as int)) == 0 implies exists|
                            b: int,
                        | t <= b < t + n && self.block(b) by {
                            lemma_fundamental_div_mod_converse(t, 64, s as int / 64, t - s);
                            assert((s as int / 64) * 64 <= t < (s as int / 64) * 64 + 64);
                            assert(self.block(t));
                            assert(t <= t < t + n && self.block(t));
                        }
                    }
                    s += 64;
                    continue ;
                }
            }
            match self.first_used_in(s, s + n) {
                None => {
                    return Some(s);
                },
                Some(k) => {
                    proof {
                        assert forall|t: int|
                            s <= t < s + stride && #[trigger] (t % (stride as int)) == 0
                            implies exists|b: int| t <= b < t + n && self.block(b) by {
                            crate::bits::lemma_unique_multiple(s as int, t, stride as int);
                            assert(self.block(k as int));
                        }
                    }
                    if stride > total - n || s > total - n - stride {
                        proof {
                            assert forall|t: int|
                                0 <= t < s + stride && #[trigger] (t % (stride as int)) == 0 && t
                                    + n <= total implies exists|b: int|
                                t <= b < t + n && self.block(b) by {}
                        }
                        return None;
                    }
                    proof {
                        crate::bits::lemma_step_multiple(s as int, stride as int);
                    }
                    s += stride;
                },
            }
        }
        None
    }



    /// Find the lowest used block in `[start, end)`, if any.
    fn first_used_in(&self, start: usize, end: usize) -> (r: Option<usize>)
        requires
            self.wf(),
            start <= end,
            end <= self.pages_len() * 64,
        ensures
            match r {
                Some(k) => start <= k < end && self.block(k as int),
                None => forall|b: int| start <= b < end ==> !self.block(b),
            },
    {
        let mut j = start;
        while j < end
            invariant
                self.wf(),
                start <= j <= end,
                end <= self.pages_len() * 64,
                forall|b: int| start <= b < j ==> !self.block(b),
            decreases end - j,
        {
            if self.block_get(j) {
                return Some(j);
            }
            j += 1;
        }
        None
    }

    /// Mark the free run `[sb, sb + n)` in use. Every page of the run that
    /// was empty first gets a fresh mapping; then every block of the run is
    /// set. All or nothing: if the frame table runs dry, no block is marked
    /// and the fresh mappings are taken down again, though the frames they
    /// took stay reserved.
    #[verifier::rlimit(100)]
    fn alloc_run(&mut self, sb: usize, n: usize) -> (r: Result<(), AllocError>)
        requires
            old(self).wf(),
            n >= 1,
            sb + n <= old(self).pages_len() * 64,
            forall|b: int| sb <= b < sb + n ==> !old(self).block(b),
        ensures
            final(self).wf(),
            final(self).pages_len() == old(self).pages_len(),
            final(self).table_page() == old(self).table_page(),
            final(self).addressor().spec_mapped_offset() == old(self).addressor().spec_mapped_offset(),
            final(self).addressor().frame_table().capacity() == old(self).addressor().frame_table().capacity(),
            final(self).addressor().frame_table().frames() == old(self).addressor().frame_table().frames(),
            forall|f: int|
                0 <= f < old(self).addressor().frame_table().capacity() && old(self).addressor().frame_table().is_set(f) ==> final(self).addressor().frame_table().is_set(f),
            match r {
                Ok(()) => {
                    &&& forall|b: int|
                        0 <= b < final(self).pages_len() * 64 ==> final(self).block(b) == (old(self).block(b) || sb <= b < sb + n)
                    &&& forall|q: int|
                        sb as int / 64 <= q <= (sb + n - 1) as int / 64 && old(self).page_empty(q)
                            ==> #[trigger] final(self).addressor().spec_mapping(q) is Some
                    &&& forall|q: int|
                        !(sb as int / 64 <= q <= (sb + n - 1) as int / 64 && old(self).page_empty(
                            q,
                        )) ==> #[trigger] final(self).addressor().spec_mapping(q) == old(self).addressor().spec_mapping(q)
                },
                Err(e) => {
                    &&& e is OutOfMemory
                    &&& spec_frames_exhausted(*final(self))
                    &&& forall|b: int|
                        0 <= b < final(self).pages_len() * 64 ==> final(self).block(b) == old(self).block(b)
                },
            },
            (forall|q: int|
                sb as int / 64 <= q <= (sb + n - 1) as int / 64 ==> !old(self).page_empty(q))
                ==> r is Ok,
    {
        let ghost pre = *self;
        let sp = sb / 64;
        let ep = (sb + n - 1) / 64;
        proof {
            pre.lemma_page_of_block(sb as int);
            pre.lemma_page_of_block(sb as int + n - 1);
            assert(sp <= ep) by {
                vstd::arithmetic::div_mod::lemma_div_is_ordered(sb as int, sb as int + n - 1, 64);
            }
            // every page the run touches holds at least one run block
            assert forall|q: int| sp <= q <= ep implies sb <= #[trigger] spec_run_block_in_page(
                sb as int,
                q,
            ) < sb + n && spec_run_block_in_page(sb as int, q) / 64 == q by {
                let j: int = spec_run_block_in_page(sb as int, q);
                lemma_fundamental_div_mod(j, 64);
                if 64 * q >= sb {
                    lemma_fundamental_div_mod_converse(j, 64, q, 0);
                    assert(j < sb + n) by {
                        assert(64 * ep <= sb as int + n - 1) by {
                            lemma_fundamental_div_mod(sb as int + n - 1, 64);
                        }
                        assert(64 * q <= 64 * ep) by (nonlinear_arith)
                            requires
                                q <= ep,
                        ;
                    }
                } else {
                    assert(q == sp);
                }
                assert(j / 64 == q);
            }
        }
        // Pages of the run that are empty need a mapping before use.
        let mut p = sp;
        while p <= ep
            invariant
                pre == *old(self),
                pre.wf(),
                n >= 1,
                sb + n <= pre.pages_len() * 64,
                forall|b: int| sb <= b < sb + n ==> !pre.block(b),
                sp == sb as int / 64,
                ep == (sb + n - 1) as int / 64,
                sp <= p <= ep + 1,
                ep < pre.pages_len(),
                self.map.pages == pre.map.pages,
                self.map.table_page == pre.map.table_page,
                self.map.addressor.wf(),
                self.map.addressor.is_active(),
                self.map.addressor.spec_mapped_offset() == pre.addressor().spec_mapped_offset(),
                self.map.addressor.frame_table().capacity()
                    == pre.addressor().frame_table().capacity(),
                self.map.addressor.frame_table().frames() == pre.addressor().frame_table().frames(),
                forall|f: int|
                    0 <= f < pre.addressor().frame_table().capacity()
                        && pre.addressor().frame_table().is_set(f)
                        ==> self.map.addressor.frame_table().is_set(f),
                forall|q: int|
                    sp <= q < p && pre.page_empty(q) ==> #[trigger] self.map.addressor.spec_mapping(
                        q,
                    ) is Some,
                forall|q: int|
                    !(sp <= q < p && pre.page_empty(q)) ==> #[trigger] self.map.addressor.spec_mapping(
                        q,
                    ) == pre.addressor().spec_mapping(q),
                forall|q: int, t: int|
                    sp <= q < p && pre.page_empty(q) && t != q
                        && #[trigger] self.map.addressor.spec_mapping(t) is Some
                        && #[trigger] self.map.addressor.spec_mapping(q) is Some
                        ==> self.map.addressor.spec_mapping(t)->0.frame
                        != self.map.addressor.spec_mapping(q)->0.frame,
            decreases ep + 1 - p,
        {
            if self.map.pages[p].is_empty() {
                let ghost before = self.map.addressor;
                proof {
                    assert(pre.page_empty(p as int));
                    assert(self.map.addressor.spec_mapping(p as int)
                        == pre.addressor().spec_mapping(p as int));
                    if pre.addressor().is_mapped(p as int) {
                        assert(!pre.page_empty(p as int));
                    }
                }
                let res = self.map.addressor.automap(p);
                if res.is_err() {
                    proof {
                        assert(self.map.addressor.frame_table().capacity()
                            == before.frame_table().capacity());
                        assert forall|f: int|
                            0 <= f < self.map.addressor.frame_table().capacity() implies
                            #[trigger] self.map.addressor.frame_table().is_set(f) by {
                            assert(0 <= f < before.frame_table().capacity());
                            assert(before.frame_table().is_set(f));
                            assert(self.map.addressor.frame_table().is_set(f)
                                == before.frame_table().is_set(f));
                        }
                    }
                    // Take the fresh mappings down again and give up.
                    let mut k = sp;
                    while k < p
                        invariant
                            pre == *old(self),
                            pre.wf(),
                            forall|f: int|
                                0 <= f < self.map.addressor.frame_table().capacity()
                                    ==> #[trigger] self.map.addressor.frame_table().is_set(f),
                            sp <= k <= p <= ep + 1,
                            ep < pre.pages_len(),
                            self.map.pages == pre.map.pages,
                            self.map.table_page == pre.map.table_page,
                            self.map.addressor.wf(),
                            self.map.addressor.is_active(),
                            self.map.addressor.spec_mapped_offset()
                                == pre.addressor().spec_mapped_offset(),
                            self.map.addressor.frame_table().capacity()
                                == pre.addressor().frame_table().capacity(),
                            self.map.addressor.frame_table().frames()
                                == pre.addressor().frame_table().frames(),
                            forall|f: int|
                                0 <= f < pre.addressor().frame_table().capacity()
                                    && pre.addressor().frame_table().is_set(f)
                                    ==> self.map.addressor.frame_table().is_set(f),
                            forall|q: int|
                                k <= q < p && pre.page_empty(q)
                                    ==> #[trigger] self.map.addressor.spec_mapping(q) is Some,
                            forall|q: int|
                                sp <= q < k ==> #[trigger] self.map.addressor.spec_mapping(q)
                                    == pre.addressor().spec_mapping(q),
                            forall|q: int|
                                !(sp <= q < p && pre.page_empty(q))
                                    ==> #[trigger] self.map.addressor.spec_mapping(q)
                                    == pre.addressor().spec_mapping(q),
                        decreases p - k,
                    {
                        let ghost at_k = self.map.addressor;
                        if self.map.pages[k].is_empty() {
                            proof {
                                assert(pre.page_empty(k as int));
                                if pre.addressor().is_mapped(k as int) {
                                    assert(!pre.page_empty(k as int));
                                }
                            }
                            let res2 = self.map.addressor.unmap(k, false);
                            proof {
                                assert(res2 is Ok);
                                assert(pre.addressor().spec_mapping(k as int) is None);
                                assert forall|q: int|
                                    sp <= q < k + 1 implies #[trigger] self.map.addressor.spec_mapping(
                                    q,
                                ) == pre.addressor().spec_mapping(q) by {
                                    if q != k as int {
                                        assert(self.map.addressor.spec_mapping(q)
                                            == at_k.spec_mapping(q));
                                    }
                                }
                            }
                        } else {
                            proof {
                                assert(!pre.page_empty(k as int));
                                assert(self.map.addressor.spec_mapping(k as int)
                                    == pre.addressor().spec_mapping(k as int));
                            }
                        }
                        k += 1;
                    }
                    proof {
                        assert forall|q: int| self.map.addressor.spec_mapping(q)
                            == pre.addressor().spec_mapping(q) by {}
                        Self::lemma_same_state_wf(pre, *self);
                        assert(pre.page_empty(p as int) && sp <= p <= ep);
                    }
                    return Err(AllocError::OutOfMemory);
                }
                proof {
                    let m = self.map.addressor.spec_mapping(p as int)->0;
                    assert(crate::pmm::next_frame_step(
                        before.frame_table(),
                        self.map.addressor.frame_table(),
                        m.frame as int,
                    ));
                    assert forall|q: int, t: int|
                        sp <= q < p + 1 && pre.page_empty(q) && t != q
                            && #[trigger] self.map.addressor.spec_mapping(t) is Some
                            && #[trigger] self.map.addressor.spec_mapping(q) is Some implies
                        self.map.addressor.spec_mapping(t)->0.frame
                            != self.map.addressor.spec_mapping(q)->0.frame by {
                        if q == p as int {
                            assert(self.map.addressor.spec_mapping(t) == before.spec_mapping(t));
                            before.lemma_mapped_frame_set(t);
                            assert(before.frame_table().is_set(
                                before.spec_mapping(t)->0.frame as int,
                            ));
                        } else if t == p as int {
                            assert(self.map.addressor.spec_mapping(q) == before.spec_mapping(q));
                            before.lemma_mapped_frame_set(q);
                            assert(before.frame_table().is_set(
                                before.spec_mapping(q)->0.frame as int,
                            ));
                        } else {
                            assert(self.map.addressor.spec_mapping(t) == before.spec_mapping(t));
                            assert(self.map.addressor.spec_mapping(q) == before.spec_mapping(q));
                        }
                    }
                    assert forall|q: int|
                        !(sp <= q < p + 1 && pre.page_empty(q))
                        implies #[trigger] self.map.addressor.spec_mapping(q)
                        == pre.addressor().spec_mapping(q) by {
                        assert(q != p as int);
                        assert(self.map.addressor.spec_mapping(q) == before.spec_mapping(q));
                    }
                }
            }
            p += 1;
        }
        // Every page of the run is mapped now; set the run's blocks.
        let ghost mapped = *self;
        let mut b = sb;
        while b < sb + n
            invariant
                pre.wf(),
                n >= 1,
                sb + n <= pre.pages_len() * 64,
                sb <= b <= sb + n,
                sp == sb as int / 64,
                ep == (sb + n - 1) as int / 64,
                ep < pre.pages_len(),
                self.pages_len() == pre.pages_len(),
                self.map.table_page == pre.map.table_page,
                self.map.addressor == mapped.map.addressor,
                mapped.map.addressor.wf(),
                mapped.map.addressor.is_active(),
                mapped.map.addressor.spec_mapped_offset() == pre.addressor().spec_mapped_offset(),
                mapped.map.addressor.frame_table().capacity()
                    == pre.addressor().frame_table().capacity(),
                mapped.map.addressor.frame_table().frames()
                    == pre.addressor().frame_table().frames(),
                forall|f: int|
                    0 <= f < pre.addressor().frame_table().capacity()
                        && pre.addressor().frame_table().is_set(f)
                        ==> mapped.map.addressor.frame_table().is_set(f),
                forall|q: int|
                    sp <= q <= ep && pre.page_empty(q)
                        ==> #[trigger] mapped.map.addressor.spec_mapping(q) is Some,
                forall|q: int|
                    !(sp <= q <= ep && pre.page_empty(q)) ==> #[trigger] mapped.map.addressor.spec_mapping(
                        q,
                    ) == pre.addressor().spec_mapping(q),
                forall|q: int, t: int|
                    sp <= q <= ep && pre.page_empty(q) && t != q
                        && #[trigger] mapped.map.addressor.spec_mapping(t) is Some
                        && #[trigger] mapped.map.addressor.spec_mapping(q) is Some
                        ==> mapped.map.addressor.spec_mapping(t)->0.frame
                        != mapped.map.addressor.spec_mapping(q)->0.frame,
                forall|j: int|
                    0 <= j < self.pages_len() * 64 ==> #[trigger] self.block(j) == (pre.block(j)
                        || sb <= j < b),
                forall|q: int|
                    0 <= q < self.pages_len() && !(sp <= q <= ep) ==> self.page_value(q)
                        == pre.page_value(q),
                forall|q: int|
                    0 <= q < self.pages_len() && !pre.page_empty(q) ==> !self.page_empty(q),
            decreases sb + n - b,
        {
            let ghost st = *self;
            proof {
                st.lemma_page_of_block(b as int);
                vstd::arithmetic::div_mod::lemma_div_is_ordered(sb as int, b as int, 64);
                vstd::arithmetic::div_mod::lemma_div_is_ordered(b as int, sb as int + n - 1, 64);
            }
            self.block_set(b);
            proof {
                assert forall|q: int|
                    0 <= q < self.pages_len() && !(sp <= q <= ep) implies self.page_value(q)
                        == pre.page_value(q) by {
                    assert(q != b as int / 64);
                    assert(self.page_value(q) == st.page_value(q));
                }
            }
            b += 1;
        }
        proof {
            assert(self.map.addressor == mapped.map.addressor);
            assert(self.map.addressor.spec_mapped_offset() == pre.addressor().spec_mapped_offset());
            assert(self.map.addressor.frame_table().capacity()
                == pre.addressor().frame_table().capacity());
            assert(self.map.addressor.frame_table().frames()
                == pre.addressor().frame_table().frames());
            assert forall|f: int|
                0 <= f < pre.addressor().frame_table().capacity()
                    && pre.addressor().frame_table().is_set(f) implies
                self.map.addressor.frame_table().is_set(f) by {
                assert(mapped.map.addressor.frame_table().is_set(f));
            }
            assert(self.table_page() == pre.table_page());
            Self::lemma_alloc_run_commit(pre, mapped, *self, sb as int, n as int, sp as int,
                ep as int);
        }
        Ok(())
    }

    /// Well-formedness survives when the occupancy values, the table
    /// position and the mappings all read the same, whatever the storage.
    proof fn lemma_same_state_wf_values(pre: BlockAllocator, now: BlockAllocator)
        requires
            pre.wf(),
            now.pages_len() == pre.pages_len(),
            now.map.table_page == pre.map.table_page,
            now.map.addressor.wf(),
            now.map.addressor.is_active(),
            forall|q: int|
                0 <= q < now.pages_len() ==> #[trigger] now.page_value(q) == pre.page_value(q),
            forall|p: int|
                now.map.addressor.spec_mapping(p) == pre.map.addressor.spec_mapping(p),
        ensures
            now.wf(),
    {
        if now.pages_len() > 0 {
            assert(pre.page_full(0));
            assert(now.page_value(0) == pre.page_value(0));
            assert(now.page_full(0));
            assert forall|p: int|
                now.table_page() <= p < now.table_page() + now.table_pages() implies
                #[trigger] now.page_full(p) by {
                assert(pre.page_full(p));
                assert(now.page_value(p) == pre.page_value(p));
            }
        }
        assert forall|p: int| #[trigger] now.map.addressor.is_mapped(p) implies 0 <= p
            < now.pages_len() && !now.page_empty(p) by {
            assert(pre.map.addressor.spec_mapping(p) == now.map.addressor.spec_mapping(p));
            assert(pre.map.addressor.is_mapped(p));
            assert(now.page_value(p) == pre.page_value(p));
        }
        assert forall|p: int|
            1 <= p < now.pages_len() && !(#[trigger] now.page_empty(p)) implies
            now.map.addressor.is_mapped(p) by {
            assert(now.page_value(p) == pre.page_value(p));
            assert(!pre.page_empty(p));
            assert(pre.map.addressor.is_mapped(p));
            assert(pre.map.addressor.spec_mapping(p) == now.map.addressor.spec_mapping(p));
        }
        assert forall|p1: int, p2: int|
            p1 != p2 && #[trigger] now.map.addressor.spec_mapping(p1) is Some
                && #[trigger] now.map.addressor.spec_mapping(p2) is Some implies
            now.map.addressor.spec_mapping(p1)->0.frame != now.map.addressor.spec_mapping(
            p2,
        )->0.frame by {
            assert(pre.map.addressor.spec_mapping(p1) == now.map.addressor.spec_mapping(p1));
            assert(pre.map.addressor.spec_mapping(p2) == now.map.addressor.spec_mapping(p2));
        }
    }

    /// Assembles well-formedness after a run is marked.
    proof fn lemma_alloc_run_commit(
        pre: BlockAllocator,
        mapped: BlockAllocator,
        now: BlockAllocator,
        sb: int,
        n: int,
        sp: int,
        ep: int,
    )
        requires
            pre.wf(),
            n >= 1,
            0 <= sb,
            sb + n <= pre.pages_len() * 64,
            forall|b: int| sb <= b < sb + n ==> !pre.block(b),
            sp == sb / 64,
            ep == (sb + n - 1) / 64,
            ep < pre.pages_len(),
            forall|q: int|
                sp <= q <= ep ==> sb <= #[trigger] spec_run_block_in_page(sb, q) < sb + n
                    && spec_run_block_in_page(sb, q) / 64 == q,
            mapped.map.pages == pre.map.pages,
            mapped.map.addressor.wf(),
            mapped.map.addressor.is_active(),
            forall|q: int|
                sp <= q <= ep && pre.page_empty(q) ==> #[trigger] mapped.map.addressor.spec_mapping(
                    q,
                ) is Some,
            forall|q: int|
                !(sp <= q <= ep && pre.page_empty(q)) ==> #[trigger] mapped.map.addressor.spec_mapping(
                    q,
                ) == pre.addressor().spec_mapping(q),
            forall|q: int, t: int|
                sp <= q <= ep && pre.page_empty(q) && t != q
                    && #[trigger] mapped.map.addressor.spec_mapping(t) is Some
                    && #[trigger] mapped.map.addressor.spec_mapping(q) is Some
                    ==> mapped.map.addressor.spec_mapping(t)->0.frame
                    != mapped.map.addressor.spec_mapping(q)->0.frame,
            now.pages_len() == pre.pages_len(),
            now.map.table_page == pre.map.table_page,
            now.map.addressor == mapped.map.addressor,
            forall|j: int|
                0 <= j < now.pages_len() * 64 ==> #[trigger] now.block(j) == (pre.block(j) || sb
                    <= j < sb + n),
            forall|q: int|
                0 <= q < now.pages_len() && !(sp <= q <= ep) ==> now.page_value(q)
                    == pre.page_value(q),
            forall|q: int|
                0 <= q < now.pages_len() && !pre.page_empty(q) ==> !now.page_empty(q),
        ensures
            now.wf(),
    {
        assert(pre.pages_len() > 0) by (nonlinear_arith)
            requires
                sb + n <= pre.pages_len() * 64,
                n >= 1,
                0 <= sb,
        ;
        assert(now.map.addressor == mapped.map.addressor);
        assert(now.table_page() == pre.table_page());
        assert(now.table_pages() == pre.table_pages());
        assert(pre.page_full(0));
        assert(sp >= 1) by {
            if sp == 0 {
                let j = spec_run_block_in_page(sb, 0);
                assert(sb <= j < sb + n && j / 64 == 0);
                assert(!pre.block(j));
                pre.lemma_empty_page_blocks(0);
                lemma_fundamental_div_mod(j, 64);
                assert(pre.block(j));
            }
        }
        // the run touches none of the map's own table pages
        assert forall|q: int| sp <= q <= ep implies !(#[trigger] pre.is_table_page(q)) by {
            assert(pre.pages_len() > 0);
            let j = spec_run_block_in_page(sb, q);
            assert(sb <= j < sb + n && j / 64 == q);
            assert(!pre.block(j));
            if pre.is_table_page(q) {
                assert(pre.page_full(q));
                pre.lemma_empty_page_blocks(q);
                lemma_fundamental_div_mod(j, 64);
                assert(q * 64 <= j < q * 64 + 64) by (nonlinear_arith)
                    requires
                        j / 64 == q,
                        j == (j / 64) * 64 + j % 64,
                        0 <= j % 64 < 64,
                ;
                assert(pre.block(j));
            }
        }
        assert(now.page_full(0)) by {
            assert(pre.page_full(0));
            assert(!(sp <= 0 <= ep));
            assert(now.page_value(0) == pre.page_value(0));
        }
        assert forall|q: int|
            now.table_page() <= q < now.table_page() + now.table_pages() implies
            #[trigger] now.page_full(q) by {
            assert(pre.table_page() <= q < pre.table_page() + pre.table_pages());
            assert(pre.page_full(q));
            assert(pre.is_table_page(q));
            assert(!(sp <= q <= ep));
            assert(0 <= q < now.pages_len());
            assert(q >= 1);
            assert(now.page_value(q) == pre.page_value(q));
        }
        // B1: mapped pages are in range with blocks in use
        assert forall|q: int| #[trigger] now.map.addressor.is_mapped(q) implies 0 <= q
            < now.pages_len() && !now.page_empty(q) by {
            if sp <= q <= ep && pre.page_empty(q) {
                let j = spec_run_block_in_page(sb, q);
                assert(sb <= j < sb + n && j / 64 == q);
                assert(now.block(j));
                now.lemma_block_nonempty(j);
            } else {
                assert(!(sp <= q <= ep && pre.page_empty(q)));
                assert(mapped.map.addressor.spec_mapping(q) == pre.addressor().spec_mapping(q));
                assert(now.map.addressor.spec_mapping(q) == pre.addressor().spec_mapping(q));
                assert(pre.addressor().is_mapped(q));
                assert(!pre.page_empty(q));
                assert(!now.page_empty(q));
            }
        }
        // B2: pages with blocks in use are mapped
        assert forall|q: int|
            1 <= q < now.pages_len() && !(#[trigger] now.page_empty(q)) implies
            now.map.addressor.is_mapped(q) by {
            if sp <= q <= ep {
                if pre.page_empty(q) {
                    assert(mapped.map.addressor.spec_mapping(q) is Some);
                    assert(now.map.addressor.spec_mapping(q) is Some);
                } else {
                    assert(!pre.page_empty(q));
                    assert(pre.addressor().is_mapped(q));
                    assert(mapped.map.addressor.spec_mapping(q) == pre.addressor().spec_mapping(
                        q,
                    ));
                    assert(now.map.addressor.spec_mapping(q) == pre.addressor().spec_mapping(q));
                }
            } else {
                assert(now.page_value(q) == pre.page_value(q));
                assert(!pre.page_empty(q));
                assert(pre.addressor().is_mapped(q));
                assert(mapped.map.addressor.spec_mapping(q) == pre.addressor().spec_mapping(q));
                assert(now.map.addressor.spec_mapping(q) == pre.addressor().spec_mapping(q));
            }
        }
        // injectivity: fresh frames are distinct from everything
        assert forall|p1: int, p2: int|
            p1 != p2 && #[trigger] now.map.addressor.spec_mapping(p1) is Some
                && #[trigger] now.map.addressor.spec_mapping(p2) is Some implies
            now.map.addressor.spec_mapping(p1)->0.frame != now.map.addressor.spec_mapping(
            p2,
        )->0.frame by {
            let fresh1 = sp <= p1 <= ep && pre.page_empty(p1);
            let fresh2 = sp <= p2 <= ep && pre.page_empty(p2);
            assert(mapped.map.addressor.spec_mapping(p1) is Some);
            assert(mapped.map.addressor.spec_mapping(p2) is Some);
            if !fresh1 && !fresh2 {
                assert(!(sp <= p1 <= ep && pre.page_empty(p1)));
                assert(!(sp <= p2 <= ep && pre.page_empty(p2)));
                assert(mapped.map.addressor.spec_mapping(p1) == pre.addressor().spec_mapping(p1));
                assert(mapped.map.addressor.spec_mapping(p2) == pre.addressor().spec_mapping(p2));
                assert(now.map.addressor.spec_mapping(p1) == pre.addressor().spec_mapping(p1));
                assert(now.map.addressor.spec_mapping(p2) == pre.addressor().spec_mapping(p2));
            }
        }
    }

    /// Serve a request for `size` bytes at the given alignment, which must be
    /// a power of two. The request is rounded up to whole blocks and the
    /// lowest fitting aligned run of free blocks is taken; when no run fits,
    /// the map grows and the scan starts over. Growth strictly increases the
    /// capacity, so the loop terminates: either a run is found or growth
    /// itself gives out.
    pub fn allocate(&mut self, size: usize, align: Option<usize>) -> (r: Result<
        Alloc<u8>,
        AllocError,
    >)
        requires
            old(self).wf(),
        ensures
            final(self).wf(),
            final(self).pages_len() >= old(self).pages_len(),
            final(self).addressor().spec_mapped_offset() == old(self).addressor().spec_mapped_offset(),
            final(self).addressor().frame_table().capacity() == old(self).addressor().frame_table().capacity(),
            final(self).addressor().frame_table().frames() == old(self).addressor().frame_table().frames(),
            forall|f: int|
                0 <= f < old(self).addressor().frame_table().capacity() && old(self).addressor().frame_table().is_set(f) ==> final(self).addressor().frame_table().is_set(f),
            align matches Some(al) ==> (!is_pow2(al as int) ==> r == Result::<
                Alloc<u8>,
                AllocError,
            >::Err(AllocError::InvalidAlignment(al))),
            (align matches Some(al) ==> is_pow2(al as int)) && spec_has_mapped_fit(
                *old(self),
                spec_size_in_blocks(size as int),
                spec_align_stride(align),
            ) ==> r is Ok,
            match r {
                Ok(a) => spec_alloc_success(*old(self), *final(self), a, size as int, align),
                Err(e) => {
                    &&& (e matches AllocError::InvalidAlignment(al) ==> align == Some(al)
                        && !is_pow2(al as int) && *final(self) == *old(self))
                    &&& (e is OutOfMemory ==> spec_frames_exhausted(*final(self))
                        || spec_grown_len(
                        final(self).pages_len(),
                        spec_size_in_blocks(size as int),
                    ) > usize::MAX as int / PAGE_SIZE as int)
                    &&& (e is InvalidAlignment || e is OutOfMemory)
                    &&& forall|b: int|
                        0 <= b < old(self).pages_len() * 64 && #[trigger] old(self).block(b) && !old(self).is_table_block(b) ==> final(self).block(b) && !final(self).is_table_block(
                            b,
                        )
                },
            },
    {
        if let Some(al) = align {
            if !check_pow2(al) {
                return Err(AllocError::InvalidAlignment(al));
            }
        }
        let stride: usize = match align {
            None => 1,
            Some(al) => {
                if al / 64 >= 1 {
                    al / 64
                } else {
                    1
                }
            },
        };
        let n_raw = size / 64 + if size % 64 != 0 {
            1
        } else {
            0
        };
        let n: usize = if n_raw == 0 {
            1
        } else {
            n_raw
        };
        proof {
            assert(n == spec_size_in_blocks(size as int));
            assert(stride as int == spec_align_stride(align));
            vstd::arithmetic::div_mod::lemma_div_is_ordered(size as int, usize::MAX as int, 64);
        }
        loop
            invariant
                self.wf(),
                n == spec_size_in_blocks(size as int),
                n >= 1,
                stride as int == spec_align_stride(align),
                stride >= 1,
                align matches Some(al) ==> is_pow2(al as int),
                n <= usize::MAX / 64 + 1,
                self.pages_len() >= old(self).pages_len(),
                self.addressor().spec_mapped_offset() == old(self).addressor().spec_mapped_offset(),
                self.addressor().frame_table().capacity() == old(self).addressor().frame_table().capacity(),
                self.addressor().frame_table().frames() == old(self).addressor().frame_table().frames(),
                forall|f: int|
                    0 <= f < old(self).addressor().frame_table().capacity() && old(self).addressor().frame_table().is_set(f) ==> self.addressor().frame_table().is_set(
                        f,
                    ),
                forall|b: int|
                    0 <= b < old(self).pages_len() * 64 && #[trigger] old(self).block(b) && !old(self).is_table_block(b) ==> self.block(b) && !self.is_table_block(b),
                spec_has_fit(*old(self), n as int, stride as int) ==> *self == *old(self),
            decreases usize::MAX as int / PAGE_SIZE as int + 1 - self.pages_len(),
        {
            match self.find_block_run(n, stride) {
                Some(sb) => {
                    let ghost found = *self;
                    match self.alloc_run(sb, n) {
                        Err(e) => {
                            return Err(e);
                        },
                        Ok(()) => {},
                    }
                    proof {
                        self.lemma_wf_exposed();
                        crate::pmm::FrameAllocator::lemma_mul_bound(
                            self.pages_len(),
                            PAGE_SIZE as int,
                            usize::MAX as int,
                        );
                        assert(sb + n <= self.pages_len() * 64);
                        assert((sb as int + n as int) * 64 <= self.pages_len() * 64 * 64)
                            by (nonlinear_arith)
                            requires
                                sb + n <= self.pages_len() * 64,
                        ;
                        assert(self.pages_len() * 64 * 64 <= self.pages_len() * PAGE_SIZE)
                            by (nonlinear_arith)
                            requires
                                self.pages_len() >= 0,
                        ;
                    }
                    let addr = sb * 64;
                    let len = n * 64;
                    proof {
                        vstd::arithmetic::div_mod::lemma_fundamental_div_mod_converse_div(
                            addr as int,
                            64,
                            sb as int,
                            0,
                        );
                        Self::lemma_aligned_address(sb as int, stride as int, align);
                    }
                    let handle = Alloc::<u8>::new(addr, len);
                    proof {
                        if spec_has_fit(*old(self), n as int, stride as int) {
                            assert(found == *old(self));
                        }
                        assert forall|b: int|
                            sb <= b < sb + n && b < old(self).pages_len() * 64 && #[trigger] old(self).block(b) implies old(self).is_table_block(b) by {
                            if !old(self).is_table_block(b) {
                                assert(found.block(b));
                                assert(!found.block(b));
                            }
                        }
                    }
                    return Ok(handle);
                },
                None => {
                    proof {
                        if spec_has_fit(*self, n as int, stride as int) {
                            let t = choose|t: int|
                                0 <= t && #[trigger] (t % (stride as int)) == 0 && t + n
                                    <= self.pages_len() * 64 && (forall|b: int|
                                    t <= b < t + n ==> !self.block(b));
                            assert(exists|b: int| t <= b < t + n && self.block(b));
                        }
                        assert(!spec_has_fit(*old(self), n as int, stride as int));
                    }
                    let ghost before_grow = *self;
                    match self.grow(n) {
                        Err(e) => {
                            proof {
                                assert forall|b: int|
                                    0 <= b < old(self).pages_len() * 64 && #[trigger] old(self).block(b) && !old(self).is_table_block(b) implies self.block(b)
                                    && !self.is_table_block(b) by {
                                    assert(before_grow.block(b) && !before_grow.is_table_block(b));
                                    assert(self.page_value(b / 64) == before_grow.page_value(
                                        b / 64,
                                    ));
                                    assert(self.table_page() == before_grow.table_page());
                                    assert(self.pages_len() == before_grow.pages_len());
                                }
                            }
                            return Err(e);
                        },
                        Ok(()) => {},
                    }
                },
            }
        }
    }

    /// A block index on the alignment stride names an address on the
    /// requested alignment.
    proof fn lemma_aligned_address(sb: int, stride: int, align: Option<usize>)
        requires
            0 <= sb,
            stride == spec_align_stride(align),
            sb % stride == 0,
            align matches Some(al) ==> is_pow2(al as int),
        ensures
            align matches Some(al) ==> (sb * 64) % (al as int) == 0,
    {
        if align is Some {
            let a = align->0 as int;
            if a / 64 >= 1 {
                // the alignment is at least one block: 64 divides it exactly
                assert(a >= 64);
                assert(is_pow2(64int)) by {
                    reveal_with_fuel(is_pow2, 8);
                }
                lemma_pow2_multiple(a, 64);
                lemma_fundamental_div_mod(a, 64);
                assert(a == 64 * (a / 64));
                assert(stride == a / 64);
                lemma_fundamental_div_mod(sb, stride);
                assert(sb == stride * (sb / stride));
                assert(sb * 64 == a * (sb / stride)) by (nonlinear_arith)
                    requires
                        sb == stride * (sb / stride),
                        a == 64 * stride,
                ;
                vstd::arithmetic::div_mod::lemma_mod_multiples_basic(sb / stride, a);
            } else {
                // the alignment divides one block
                assert(1 <= a < 64) by {
                    reveal(is_pow2);
                    lemma_fundamental_div_mod(a, 64);
                }
                assert(is_pow2(64int)) by {
                    reveal_with_fuel(is_pow2, 8);
                }
                lemma_pow2_multiple(64, a);
                lemma_fundamental_div_mod(64, a);
                assert(64 == a * (64int / a));
                assert(sb * 64 == a * (sb * (64int / a))) by (nonlinear_arith)
                    requires
                        64 == a * (64int / a),
                ;
                vstd::arithmetic::div_mod::lemma_mod_multiples_basic(sb * (64int / a), a);
            }
        }
    }

    /// A ready allocator over a fresh address space: the map starts with one
    /// page of `BlockPage`s, page 0 marked full, and its own table already
    /// self-hosted. The address space is made active; it must carry no
    /// mappings yet.
    pub fn new(addressor: VirtualAddressor) -> (r: Result<BlockAllocator, AllocError>)
        requires
            addressor.wf(),
            forall|p: int| !addressor.is_mapped(p),
        ensures
            match r {
                Ok(b) => {
                    &&& b.wf()
                    &&& b.pages_len() == 512
                    &&& b.addressor().spec_mapped_offset() == addressor.spec_mapped_offset()
                    &&& b.table_page() == 1
                    &&& b.table_pages() == 1
                    &&& b.page_full(0)
                    &&& b.page_full(1)
                    &&& forall|p: int| 2 <= p < 512 ==> b.page_empty(p)
                },
                Err(e) => e is OutOfMemory && (forall|f: int|
                    0 <= f < addressor.frame_table().capacity()
                        ==> addressor.frame_table().is_set(f)),
            },
    {
        let ghost orig = addressor;
        let mut table = AllocatorMap { addressor, pages: Vec::new(), table_page: 0 };
        table.addressor.swap_into();
        let mut b = BlockAllocator { map: table };
        proof {
            assert(b.pages_len() == 0);
            assert forall|p: int| !(#[trigger] b.map.addressor.is_mapped(p)) by {
                assert(b.map.addressor.spec_mapping(p) == orig.spec_mapping(p));
                assert(!orig.is_mapped(p));
            }
            assert forall|p1: int, p2: int|
                p1 != p2 && #[trigger] b.map.addressor.spec_mapping(p1) is Some
                    && #[trigger] b.map.addressor.spec_mapping(p2) is Some implies
                b.map.addressor.spec_mapping(p1)->0.frame != b.map.addressor.spec_mapping(
                p2,
            )->0.frame by {
                assert(b.map.addressor.is_mapped(p1));
            }
        }
        let ghost before_grow = b;
        match b.grow(64) {
            Err(e) => {
                proof {
                    // the bitmap could not be grown from nothing: every frame
                    // of the table was already taken
                    assert(spec_blocks_to_pages(64) == 1);
                    assert(spec_npot(0int + 1) == 1);
                    assert(spec_grown_len(0, 64) == 512);
                    assert(usize::MAX as int / PAGE_SIZE as int >= 512) by {
                        vstd::arithmetic::div_mod::lemma_div_is_ordered(
                            512int * 4096,
                            usize::MAX as int,
                            PAGE_SIZE as int,
                        );
                        vstd::arithmetic::div_mod::lemma_fundamental_div_mod_converse(
                            512int * 4096,
                            4096int,
                            512int,
                            0int,
                        );
                    }
                    assert(spec_frames_exhausted(b));
                    assert(before_grow.addressor().frame_table() == orig.frame_table());
                    assert forall|f: int|
                        0 <= f < orig.frame_table().capacity() implies orig.frame_table().is_set(
                        f,
                    ) by {
                        assert(b.addressor().frame_table().is_set(f)
                            == before_grow.addressor().frame_table().is_set(f));
                    }
                }
                Err(e)
            },
            Ok(()) => {
                proof {
                    assert(spec_blocks_to_pages(64) == 1);
                    assert(spec_npot(1) == 1);
                    assert(b.pages_len() == 512);
                    assert(b.table_page() == 1);
                    assert(b.table_pages() == 1);
                    assert(spec_grow_shape(before_grow, b));
                    assert(b.page_full(0));
                    assert(b.page_full(1));
                    assert forall|p: int| 2 <= p < 512 implies b.page_empty(p) by {
                        assert(before_grow.pages_len() <= p < b.pages_len());
                        assert(!(b.table_page() <= p < b.table_page() + b.table_pages()));
                    }
                }
                Ok(b)
            },
        }
    }

    /// Release the range a handle named: clear every block of the range,
    /// which must all be in use, and unmap every page that becomes empty,
    /// returning its frame to the frame table. Freeing blocks that are not
    /// in use is heap corruption, so the contract refuses it outright.
    #[verifier::rlimit(100)]
    pub fn dealloc(&mut self, addr: usize, size: usize)
        requires
            old(self).wf(),
            size >= 1,
            addr as int / 64 >= 64,
            addr as int / 64 + spec_size_in_blocks(size as int) <= old(self).pages_len() * 64,
            forall|b: int|
                addr as int / 64 <= b < addr as int / 64 + spec_size_in_blocks(size as int)
                    ==> old(self).block(b),
            forall|b: int|
                addr as int / 64 <= b < addr as int / 64 + spec_size_in_blocks(size as int)
                    ==> !old(self).is_table_block(b),
        ensures
            final(self).wf(),
            final(self).pages_len() == old(self).pages_len(),
            final(self).table_page() == old(self).table_page(),
            final(self).addressor().spec_mapped_offset() == old(self).addressor().spec_mapped_offset(),
            final(self).addressor().frame_table().capacity() == old(self).addressor().frame_table().capacity(),
            final(self).addressor().frame_table().frames() == old(self).addressor().frame_table().frames(),
            forall|b: int|
                0 <= b < final(self).pages_len() * 64 ==> final(self).block(b) == (old(self).block(
                    b,
                ) && !(addr as int / 64 <= b < addr as int / 64 + spec_size_in_blocks(
                    size as int,
                ))),
            forall|f: int|
                0 <= f < final(self).addressor().frame_table().capacity() && final(self).addressor().frame_table().is_set(f) ==> old(self).addressor().frame_table().is_set(
                    f,
                ),
            ({
                let sb = addr as int / 64;
                let n = spec_size_in_blocks(size as int);
                let sp = sb / 64;
                let ep = (sb + n - 1) / 64;
                &&& forall|q: int|
                    sp <= q <= ep && final(self).page_empty(q) ==> !final(self).addressor().is_mapped(q)
                &&& forall|q: int|
                    !(sp <= q <= ep && final(self).page_empty(q)) ==> final(self).addressor().spec_mapping(q) == old(self).addressor().spec_mapping(q)
                &&& forall|f: int|
                    0 <= f < final(self).addressor().frame_table().capacity() ==> final(self).addressor().frame_table().is_set(f) == (old(self).addressor().frame_table().is_set(f) && !spec_frame_released(*old(self), *final(self), sp, ep, f))
            }),
    {
        let ghost pre = *self;
        let sb = addr / 64;
        let n_raw = size / 64 + if size % 64 != 0 {
            1
        } else {
            0
        };
        let n = n_raw;
        proof {
            assert(n == spec_size_in_blocks(size as int));
            vstd::arithmetic::div_mod::lemma_div_is_ordered(size as int, usize::MAX as int, 64);
        }
        let sp = sb / 64;
        let ep = (sb + n - 1) / 64;
        proof {
            pre.lemma_page_of_block(sb as int);
            pre.lemma_page_of_block(sb as int + n - 1);
            vstd::arithmetic::div_mod::lemma_div_is_ordered(sb as int, sb as int + n - 1, 64);
            assert(sp >= 1) by {
                vstd::arithmetic::div_mod::lemma_div_is_ordered(64, sb as int, 64);
            }
            assert forall|q: int| sp <= q <= ep implies sb <= #[trigger] spec_run_block_in_page(
                sb as int,
                q,
            ) < sb + n && spec_run_block_in_page(sb as int, q) / 64 == q by {
                let j: int = spec_run_block_in_page(sb as int, q);
                lemma_fundamental_div_mod(j, 64);
                if 64 * q >= sb {
                    lemma_fundamental_div_mod_converse(j, 64, q, 0);
                    assert(j < sb + n) by {
                        assert(64 * ep <= sb as int + n - 1) by {
                            lemma_fundamental_div_mod(sb as int + n - 1, 64);
                        }
                        assert(64 * q <= 64 * ep) by (nonlinear_arith)
                            requires
                                q <= ep,
                        ;
                    }
                } else {
                    assert(q == sp);
                }
                assert(j / 64 == q);
            }
            // pages of the range are not table pages
            assert forall|q: int| sp <= q <= ep implies !pre.is_table_page(q) by {
                let j = spec_run_block_in_page(sb as int, q);
                assert(sb <= j < sb + n && j / 64 == q);
                assert(!pre.is_table_block(j));
            }
        }
        // Clear the range.
        let mut b = sb;
        while b < sb + n
            invariant
                pre == *old(self),
                pre.wf(),
                n >= 1,
                sb == addr as int / 64,
                sb >= 64,
                sb + n <= pre.pages_len() * 64,
                sb <= b <= sb + n,
                sp == sb as int / 64,
                ep == (sb + n - 1) as int / 64,
                forall|j: int| sb <= j < sb + n ==> pre.block(j),
                forall|j: int| sb <= j < sb + n ==> !pre.is_table_block(j),
                self.pages_len() == pre.pages_len(),
                self.map.table_page == pre.map.table_page,
                self.map.addressor == pre.map.addressor,
                forall|j: int|
                    0 <= j < self.pages_len() * 64 ==> #[trigger] self.block(j) == (pre.block(j)
                        && !(sb <= j < b)),
                forall|q: int|
                    0 <= q < self.pages_len() && !(sp <= q <= ep) ==> #[trigger] self.page_value(q)
                        == pre.page_value(q),
            decreases sb + n - b,
        {
            let ghost st = *self;
            proof {
                vstd::arithmetic::div_mod::lemma_div_is_ordered(sb as int, b as int, 64);
                vstd::arithmetic::div_mod::lemma_div_is_ordered(b as int, sb as int + n - 1, 64);
            }
            self.block_clear(b);
            proof {
                assert forall|q: int|
                    0 <= q < self.pages_len() && !(sp <= q <= ep) implies #[trigger] self.page_value(
                    q,
                ) == pre.page_value(q) by {
                    assert(q != b as int / 64);
                    assert(self.page_value(q) == st.page_value(q));
                }
            }
            b += 1;
        }
        // Unmap every page of the range that is now empty.
        let ghost cleared = *self;
        let mut p = sp;
        while p <= ep
            invariant
                pre == *old(self),
                pre.wf(),
                n >= 1,
                sb == addr as int / 64,
                sb >= 64,
                sb + n <= pre.pages_len() * 64,
                sp == sb as int / 64,
                ep == (sb + n - 1) as int / 64,
                1 <= sp <= p <= ep + 1,
                ep < pre.pages_len(),
                forall|q: int| sp <= q <= ep ==> !(#[trigger] pre.is_table_page(q)),
                forall|q: int|
                    sp <= q <= ep ==> sb <= #[trigger] spec_run_block_in_page(sb as int, q) < sb + n
                        && spec_run_block_in_page(sb as int, q) / 64 == q,
                forall|j: int| sb <= j < sb + n ==> pre.block(j),
                cleared.pages_len() == pre.pages_len(),
                cleared.map.table_page == pre.map.table_page,
                cleared.map.addressor == pre.map.addressor,
                forall|j: int|
                    0 <= j < cleared.pages_len() * 64 ==> #[trigger] cleared.block(j) == (pre.block(
                        j,
                    ) && !(sb <= j < sb + n)),
                self.map.pages == cleared.map.pages,
                self.map.table_page == cleared.map.table_page,
                self.map.addressor.wf(),
                self.map.addressor.is_active(),
                self.map.addressor.injective(),
                self.map.addressor.spec_mapped_offset() == pre.addressor().spec_mapped_offset(),
                self.map.addressor.frame_table().capacity()
                    == pre.addressor().frame_table().capacity(),
                self.map.addressor.frame_table().frames() == pre.addressor().frame_table().frames(),
                forall|f: int|
                    0 <= f < pre.addressor().frame_table().capacity()
                        && #[trigger] self.map.addressor.frame_table().is_set(f)
                        ==> pre.addressor().frame_table().is_set(f),
                forall|f: int|
                    0 <= f < pre.addressor().frame_table().capacity()
                        ==> #[trigger] self.map.addressor.frame_table().is_set(f) == (
                    pre.addressor().frame_table().is_set(f) && !(exists|q: int|
                        sp <= q < p && cleared.page_empty(q)
                            && #[trigger] pre.addressor().spec_mapping(q) is Some
                            && pre.addressor().spec_mapping(q)->0.frame == f)),
                forall|q: int|
                    sp <= q < p && cleared.page_empty(q) ==> #[trigger] self.map.addressor.spec_mapping(
                        q,
                    ) is None,
                forall|q: int|
                    !(sp <= q < p && cleared.page_empty(q)) ==> #[trigger] self.map.addressor.spec_mapping(
                        q,
                    ) == pre.addressor().spec_mapping(q),
            decreases ep + 1 - p,
        {
            let ghost at_p = self.map.addressor;
            if self.map.pages[p].is_empty() {
                proof {
                    // the page held blocks of the range, so it was mapped
                    let j = spec_run_block_in_page(sb as int, p as int);
                    assert(sb <= j < sb + n && j / 64 == p);
                    assert(pre.block(j));
                    pre.lemma_block_nonempty(j);
                    assert(!pre.page_empty(p as int));
                    assert(pre.addressor().is_mapped(p as int));
                    assert(self.map.addressor.spec_mapping(p as int)
                        == pre.addressor().spec_mapping(p as int));
                    // releasing is safe: no other page shares the frame
                    let m = self.map.addressor.spec_mapping(p as int)->0;
                    assert forall|q: int|
                        q != p as int && #[trigger] self.map.addressor.spec_mapping(q) is Some
                        implies self.map.addressor.spec_mapping(q)->0.frame != m.frame by {}
                }
                let res = self.map.addressor.unmap(p, true);
                proof {
                    assert(res is Ok);
                    assert forall|q: int|
                        !(sp <= q < p + 1 && cleared.page_empty(q))
                        implies #[trigger] self.map.addressor.spec_mapping(q)
                        == pre.addressor().spec_mapping(q) by {
                        assert(q != p as int);
                        assert(self.map.addressor.spec_mapping(q) == at_p.spec_mapping(q));
                    }
                    assert forall|q1: int, q2: int|
                        q1 != q2 && #[trigger] self.map.addressor.spec_mapping(q1) is Some
                            && #[trigger] self.map.addressor.spec_mapping(q2) is Some implies
                        self.map.addressor.spec_mapping(q1)->0.frame
                            != self.map.addressor.spec_mapping(q2)->0.frame by {
                        assert(self.map.addressor.spec_mapping(q1) == at_p.spec_mapping(q1));
                        assert(self.map.addressor.spec_mapping(q2) == at_p.spec_mapping(q2));
                    }
                }
            } else {
                proof {
                    assert(!cleared.page_empty(p as int));
                }
            }
            p += 1;
        }
        proof {
            assert(self.pages_len() == cleared.pages_len());
            assert forall|j: int|
                0 <= j < self.pages_len() * 64 implies #[trigger] self.block(j) == cleared.block(
                j,
            ) by {}
            assert forall|q: int| #[trigger] self.page_value(q) == cleared.page_value(q) by {}
            assert forall|q: int|
                sp <= q <= ep && self.page_empty(q) implies !self.map.addressor.is_mapped(q) by {
                assert(cleared.page_empty(q));
                assert(self.map.addressor.spec_mapping(q) is None);
            }
            assert forall|q: int|
                !(sp <= q <= ep && self.page_empty(q))
                implies #[trigger] self.map.addressor.spec_mapping(q)
                == pre.addressor().spec_mapping(q) by {
                if sp <= q <= ep {
                    assert(!cleared.page_empty(q));
                }
            }
            Self::lemma_dealloc_commit(pre, cleared, *self, sb as int, n as int, sp as int,
                ep as int);
        }
    }

    /// Assembles well-formedness after a range is released.
    proof fn lemma_dealloc_commit(
        pre: BlockAllocator,
        cleared: BlockAllocator,
        now: BlockAllocator,
        sb: int,
        n: int,
        sp: int,
        ep: int,
    )
        requires
            pre.wf(),
            n >= 1,
            64 <= sb,
            sb + n <= pre.pages_len() * 64,
            sp == sb / 64,
            ep == (sb + n - 1) / 64,
            1 <= sp <= ep < pre.pages_len(),
            forall|q: int| sp <= q <= ep ==> !(#[trigger] pre.is_table_page(q)),
            forall|q: int|
                sp <= q <= ep ==> sb <= #[trigger] spec_run_block_in_page(sb, q) < sb + n
                    && spec_run_block_in_page(sb, q) / 64 == q,
            forall|j: int| sb <= j < sb + n ==> pre.block(j),
            cleared.pages_len() == pre.pages_len(),
            cleared.map.table_page == pre.map.table_page,
            forall|j: int|
                0 <= j < cleared.pages_len() * 64 ==> #[trigger] cleared.block(j) == (pre.block(j)
                    && !(sb <= j < sb + n)),
            forall|q: int|
                0 <= q < cleared.pages_len() && !(sp <= q <= ep) ==> #[trigger] cleared.page_value(
                    q,
                ) == pre.page_value(q),
            now.map.pages == cleared.map.pages,
            now.map.table_page == cleared.map.table_page,
            now.map.addressor.wf(),
            now.map.addressor.is_active(),
            now.map.addressor.injective(),
            forall|q: int|
                sp <= q <= ep && cleared.page_empty(q) ==> #[trigger] now.map.addressor.spec_mapping(
                    q,
                ) is None,
            forall|q: int|
                !(sp <= q <= ep && cleared.page_empty(q)) ==> #[trigger] now.map.addressor.spec_mapping(
                    q,
                ) == pre.addressor().spec_mapping(q),
        ensures
            now.wf(),
    {
        assert(pre.pages_len() > 0);
        assert forall|q: int| #[trigger] now.page_value(q) == cleared.page_value(q) by {}
        assert forall|q: int|
            0 <= q < pre.pages_len() && !(sp <= q <= ep) implies #[trigger] now.page_value(q)
                == pre.page_value(q) by {
            assert(cleared.page_value(q) == pre.page_value(q));
        }
        assert(now.page_full(0)) by {
            assert(pre.page_full(0));
            assert(!(sp <= 0 <= ep));
        }
        assert forall|q: int|
            now.table_page() <= q < now.table_page() + now.table_pages() implies
            #[trigger] now.page_full(q) by {
            assert(pre.is_table_page(q));
            assert(pre.page_full(q));
            assert(!(sp <= q <= ep));
            assert(0 <= q < pre.pages_len());
        }
        assert forall|q: int| #[trigger] now.map.addressor.is_mapped(q) implies 0 <= q
            < now.pages_len() && !now.page_empty(q) by {
            if sp <= q <= ep && cleared.page_empty(q) {
                assert(now.map.addressor.spec_mapping(q) is None);
            } else {
                assert(now.map.addressor.spec_mapping(q) == pre.addressor().spec_mapping(q));
                assert(pre.addressor().is_mapped(q));
                if sp <= q <= ep {
                    assert(!cleared.page_empty(q));
                } else {
                    assert(now.page_value(q) == pre.page_value(q));
                    assert(!pre.page_empty(q));
                }
            }
        }
        assert forall|q: int|
            1 <= q < now.pages_len() && !(#[trigger] now.page_empty(q)) implies
            now.map.addressor.is_mapped(q) by {
            assert(!cleared.page_empty(q));
            if sp <= q <= ep {
                assert(now.map.addressor.spec_mapping(q) == pre.addressor().spec_mapping(q));
                let j = spec_run_block_in_page(sb, q);
                assert(sb <= j < sb + n && j / 64 == q);
                assert(pre.block(j));
                pre.lemma_block_nonempty(j);
                assert(pre.addressor().is_mapped(q));
            } else {
                assert(now.page_value(q) == pre.page_value(q));
                assert(!pre.page_empty(q));
                assert(pre.addressor().is_mapped(q));
                assert(now.map.addressor.spec_mapping(q) == pre.addressor().spec_mapping(q));
            }
        }
    }

    /// Bind the empty pages `[page, page + count)` one-to-one to the locked
    /// frames `[frame_index, frame_index + count)` and mark them fully used.
    /// The frames must be real, locked, and owned by no mapping.
    #[verifier::rlimit(100)]
    fn bind_run(&mut self, page: usize, frame_index: usize, count: usize)
        requires
            old(self).wf(),
            count >= 1,
            page + count <= old(self).pages_len(),
            forall|o: int| page <= o < page + count ==> old(self).page_empty(o),
            frame_index + count <= old(self).addressor().frame_table().frames(),
            forall|g: int|
                frame_index <= g < frame_index + count ==> old(self).addressor().frame_table().is_set(g),
            forall|p: int|
                #[trigger] old(self).addressor().spec_mapping(p) is Some ==> !(frame_index <= old(self).addressor().spec_mapping(p)->0.frame < frame_index + count),
        ensures
            final(self).wf(),
            final(self).pages_len() == old(self).pages_len(),
            final(self).table_page() == old(self).table_page(),
            final(self).addressor().spec_mapped_offset() == old(self).addressor().spec_mapped_offset(),
            final(self).addressor().frame_table() == old(self).addressor().frame_table(),
            forall|o: int|
                page <= o < page + count ==> final(self).page_full(o) && (
                #[trigger] final(self).addressor().spec_mapping(o) matches Some(m) && m.frame
                    == frame_index + o - page),
            forall|o: int|
                0 <= o < final(self).pages_len() && !(page <= o < page + count) ==> final(self).page_value(o) == old(self).page_value(o),
            forall|p: int|
                !(page <= p < page + count) ==> final(self).addressor().spec_mapping(p) == old(self).addressor().spec_mapping(p),
    {
        let ghost pre = *self;
        proof {
            assert(pre.pages_len() > 0);
            assert(pre.page_full(0));
            assert(page >= 1) by {
                assert(pre.page_empty(page as int));
                if page == 0 {
                    assert(pre.page_full(0));
                }
            }
            assert forall|o: int| page <= o < page + count implies o >= 1 && !(
            #[trigger] pre.is_table_page(o)) by {
                assert(pre.page_empty(o));
                if pre.is_table_page(o) {
                    assert(pre.page_full(o));
                }
            }
            self.map.addressor.lemma_wf_frame_table();
            self.map.addressor.frame_table().lemma_wf_bounds();
            assert(self.map.addressor.frame_table().capacity() <= usize::MAX) by (nonlinear_arith)
                requires
                    self.map.addressor.frame_table().capacity() * PAGE_SIZE <= usize::MAX,
                    self.map.addressor.frame_table().capacity() >= 0,
                    PAGE_SIZE >= 1,
            ;
        }
        let mut o: usize = 0;
        while o < count
            invariant
                pre == *old(self),
                pre.wf(),
                count >= 1,
                o <= count,
                page >= 1,
                page + count <= pre.pages_len(),
                frame_index + count <= pre.addressor().frame_table().frames(),
                frame_index + count <= usize::MAX,
                forall|q: int| page <= q < page + count ==> pre.page_empty(q),
                forall|q: int|
                    page <= q < page + count ==> q >= 1 && !(#[trigger] pre.is_table_page(q)),
                forall|g: int|
                    frame_index <= g < frame_index + count ==> pre.addressor().frame_table().is_set(
                        g,
                    ),
                forall|p: int|
                    #[trigger] pre.addressor().spec_mapping(p) is Some ==> !(frame_index
                        <= pre.addressor().spec_mapping(p)->0.frame < frame_index + count),
                self.pages_len() == pre.pages_len(),
                self.map.table_page == pre.map.table_page,
                self.map.addressor.wf(),
                self.map.addressor.is_active(),
                self.map.addressor.spec_mapped_offset() == pre.addressor().spec_mapped_offset(),
                self.map.addressor.frame_table() == pre.addressor().frame_table(),
                forall|q: int|
                    page <= q < page + o ==> (#[trigger] self.map.addressor.spec_mapping(
                        q,
                    ) matches Some(m) && m.frame == frame_index + q - page),
                forall|p: int|
                    !(page <= p < page + o) ==> #[trigger] self.map.addressor.spec_mapping(p)
                        == pre.addressor().spec_mapping(p),
                forall|q: int|
                    page <= q < page + o ==> #[trigger] self.page_value(q) == u64::MAX,
                forall|q: int|
                    0 <= q < self.pages_len() && !(page <= q < page + o) ==> self.page_value(q)
                        == pre.page_value(q),
            decreases count - o,
        {
            let d = page + o;
            let ghost at_o = *self;
            proof {
                assert(self.map.addressor.spec_mapping(d as int) == pre.addressor().spec_mapping(
                    d as int,
                ));
                if pre.addressor().is_mapped(d as int) {
                    assert(!pre.page_empty(d as int));
                }
            }
            let res = self.map.addressor.map(d, frame_index + o, None);
            proof {
                assert(res is Ok);
            }
            self.map.pages[d] = BlockPage(u64::MAX);
            proof {
                assert forall|p: int|
                    !(page <= p < page + o + 1) implies #[trigger] self.map.addressor.spec_mapping(
                    p,
                ) == pre.addressor().spec_mapping(p) by {
                    assert(p != d as int);
                    assert(self.map.addressor.spec_mapping(p) == at_o.map.addressor.spec_mapping(
                        p,
                    ));
                }
                assert forall|q: int|
                    0 <= q < self.pages_len() && !(page <= q < page + o + 1) implies
                    self.page_value(q) == pre.page_value(q) by {
                    assert(q != d as int);
                    assert(self.page_value(q) == at_o.page_value(q));
                }
                assert forall|q: int|
                    page <= q < page + o + 1 implies #[trigger] self.page_value(q) == u64::MAX by {
                    if q != d as int {
                        assert(self.page_value(q) == at_o.page_value(q));
                    }
                }
            }
            o += 1;
        }
        proof {
            Self::lemma_bind_commit(pre, *self, page as int, frame_index as int, count as int);
        }
    }

    /// Assembles well-formedness after a run of pages is bound to frames.
    proof fn lemma_bind_commit(
        pre: BlockAllocator,
        now: BlockAllocator,
        page: int,
        frame_index: int,
        count: int,
    )
        requires
            pre.wf(),
            count >= 1,
            1 <= page,
            page + count <= pre.pages_len(),
            forall|q: int| page <= q < page + count ==> pre.page_empty(q),
            forall|q: int|
                page <= q < page + count ==> q >= 1 && !(#[trigger] pre.is_table_page(q)),
            forall|p: int|
                #[trigger] pre.addressor().spec_mapping(p) is Some ==> !(frame_index
                    <= pre.addressor().spec_mapping(p)->0.frame < frame_index + count),
            now.pages_len() == pre.pages_len(),
            now.map.table_page == pre.map.table_page,
            now.map.addressor.wf(),
            now.map.addressor.is_active(),
            forall|q: int|
                page <= q < page + count ==> (#[trigger] now.map.addressor.spec_mapping(
                    q,
                ) matches Some(m) && m.frame == frame_index + q - page),
            forall|p: int|
                !(page <= p < page + count) ==> #[trigger] now.map.addressor.spec_mapping(p)
                    == pre.addressor().spec_mapping(p),
            forall|q: int| page <= q < page + count ==> #[trigger] now.page_value(q) == u64::MAX,
            forall|q: int|
                0 <= q < now.pages_len() && !(page <= q < page + count) ==> now.page_value(q)
                    == pre.page_value(q),
        ensures
            now.wf(),
    {
        assert(pre.pages_len() > 0);
        assert(now.page_full(0)) by {
            assert(!(page <= 0 < page + count));
        }
        assert forall|q: int|
            now.table_page() <= q < now.table_page() + now.table_pages() implies
            #[trigger] now.page_full(q) by {
            assert(pre.is_table_page(q));
            assert(pre.page_full(q));
            assert(!(page <= q < page + count));
        }
        assert forall|q: int| #[trigger] now.map.addressor.is_mapped(q) implies 0 <= q
            < now.pages_len() && !now.page_empty(q) by {
            if page <= q < page + count {
                assert(now.page_value(q) == u64::MAX);
            } else {
                assert(now.map.addressor.spec_mapping(q) == pre.addressor().spec_mapping(q));
                assert(pre.addressor().is_mapped(q));
                assert(!pre.page_empty(q));
            }
        }
        assert forall|q: int|
            1 <= q < now.pages_len() && !(#[trigger] now.page_empty(q)) implies
            now.map.addressor.is_mapped(q) by {
            if page <= q < page + count {
            } else {
                assert(now.page_value(q) == pre.page_value(q));
                assert(!pre.page_empty(q));
                assert(pre.addressor().is_mapped(q));
                assert(now.map.addressor.spec_mapping(q) == pre.addressor().spec_mapping(q));
            }
        }
        assert forall|p1: int, p2: int|
            p1 != p2 && #[trigger] now.map.addressor.spec_mapping(p1) is Some
                && #[trigger] now.map.addressor.spec_mapping(p2) is Some implies
            now.map.addressor.spec_mapping(p1)->0.frame != now.map.addressor.spec_mapping(
            p2,
        )->0.frame by {
            let b1 = page <= p1 < page + count;
            let b2 = page <= p2 < page + count;
            if !b1 && !b2 {
                assert(now.map.addressor.spec_mapping(p1) == pre.addressor().spec_mapping(p1));
                assert(now.map.addressor.spec_mapping(p2) == pre.addressor().spec_mapping(p2));
            } else if b1 && !b2 {
                assert(now.map.addressor.spec_mapping(p2) == pre.addressor().spec_mapping(p2));
                assert(pre.addressor().spec_mapping(p2) is Some);
            } else if !b1 && b2 {
                assert(now.map.addressor.spec_mapping(p1) == pre.addressor().spec_mapping(p1));
                assert(pre.addressor().spec_mapping(p1) is Some);
            }
        }
    }

    /// Serve `count` whole pages of virtual memory backed by caller-owned
    /// frames: page `s + o` is bound to frame `frame_index + o` for the
    /// lowest run `[s, s + count)` of empty pages, growing the map when no
    /// run fits. The frames must be real, locked, and owned by no mapping of
    /// this address space. Fails with `OutOfMemory` only when growth itself
    /// gives out: the frame table is exhausted or the grown map would not
    /// fit the address space.
    #[verifier::rlimit(100)]
    pub fn alloc_against(&mut self, frame_index: usize, count: usize) -> (r: Result<
        Alloc<u8>,
        AllocError,
    >)
        requires
            old(self).wf(),
            count >= 1,
            frame_index + count <= old(self).addressor().frame_table().frames(),
            forall|g: int|
                frame_index <= g < frame_index + count ==> old(self).addressor().frame_table().is_set(g),
            forall|p: int|
                #[trigger] old(self).addressor().spec_mapping(p) is Some ==> !(frame_index <= old(self).addressor().spec_mapping(p)->0.frame < frame_index + count),
        ensures
            final(self).wf(),
            final(self).pages_len() >= old(self).pages_len(),
            final(self).addressor().spec_mapped_offset() == old(self).addressor().spec_mapped_offset(),
            final(self).addressor().frame_table().capacity() == old(self).addressor().frame_table().capacity(),
            final(self).addressor().frame_table().frames() == old(self).addressor().frame_table().frames(),
            forall|f: int|
                0 <= f < old(self).addressor().frame_table().capacity() && old(self).addressor().frame_table().is_set(f) ==> final(self).addressor().frame_table().is_set(f),
            forall|b: int|
                0 <= b < old(self).pages_len() * 64 && #[trigger] old(self).block(b) && !old(self).is_table_block(b) ==> final(self).block(b) && !final(self).is_table_block(b),
            r matches Ok(a) ==> spec_pages_mapped(
                *final(self),
                a,
                frame_index as int,
                count as int,
            ),
            spec_has_page_run(*old(self), count as int) ==> r is Ok && final(self).pages_len()
                == old(self).pages_len() && final(self).addressor().frame_table() == old(self).addressor().frame_table(),
            r matches Ok(a) ==> (final(self).pages_len() == old(self).pages_len()
                ==> spec_pages_bound(*old(self), *final(self), a, frame_index as int, count as int)
                && (forall|t: int|
                0 <= t < a.spec_addr() as int / PAGE_SIZE as int && #[trigger] (t % 1int) == 0
                    ==> exists|p: int| t <= p < t + count && !old(self).page_empty(p))),
            r matches Err(e) ==> e is OutOfMemory && (spec_frames_exhausted(*final(self))
                || spec_grown_len(final(self).pages_len(), count as int * 64)
                > usize::MAX as int / PAGE_SIZE as int),
    {
        proof {
            old(self).map.addressor.lemma_wf_frame_table();
            old(self).map.addressor.frame_table().lemma_wf_bounds();
            crate::pmm::FrameAllocator::lemma_mul_bound(
                old(self).addressor().frame_table().capacity(),
                PAGE_SIZE as int,
                usize::MAX as int,
            );
        }
        loop
            invariant
                self.wf(),
                count >= 1,
                frame_index + count <= old(self).addressor().frame_table().frames(),
                count <= usize::MAX / PAGE_SIZE,
                self.pages_len() >= old(self).pages_len(),
                self.addressor().spec_mapped_offset() == old(self).addressor().spec_mapped_offset(),
                self.addressor().frame_table().capacity() == old(self).addressor().frame_table().capacity(),
                self.addressor().frame_table().frames() == old(self).addressor().frame_table().frames(),
                forall|f: int|
                    0 <= f < old(self).addressor().frame_table().capacity() && old(self).addressor().frame_table().is_set(f) ==> self.addressor().frame_table().is_set(
                        f,
                    ),
                forall|b: int|
                    0 <= b < old(self).pages_len() * 64 && #[trigger] old(self).block(b) && !old(self).is_table_block(b) ==> self.block(b) && !self.is_table_block(b),
                forall|g: int|
                    frame_index <= g < frame_index + count ==> self.addressor().frame_table().is_set(
                        g,
                    ),
                forall|p: int|
                    #[trigger] self.addressor().spec_mapping(p) is Some ==> !(frame_index
                        <= self.addressor().spec_mapping(p)->0.frame < frame_index + count),
                spec_has_page_run(*old(self), count as int) ==> *self == *old(self),
                self.pages_len() == old(self).pages_len() ==> *self == *old(self),
            decreases usize::MAX as int / PAGE_SIZE as int + 1 - self.pages_len(),
        {
            match self.find_empty_page_run(count) {
                Some(start) => {
                    proof {
                        self.lemma_wf_exposed();
                        crate::pmm::FrameAllocator::lemma_mul_bound(
                            self.pages_len(),
                            PAGE_SIZE as int,
                            usize::MAX as int,
                        );
                        assert((start as int + count as int) * PAGE_SIZE <= self.pages_len()
                            * PAGE_SIZE) by (nonlinear_arith)
                            requires
                                start + count <= self.pages_len(),
                                PAGE_SIZE >= 1,
                        ;
                    }
                    let ghost found = *self;
                    self.bind_run(start, frame_index, count);
                    let addr = start * 4096;
                    let len = count * 4096;
                    proof {
                        vstd::arithmetic::div_mod::lemma_fundamental_div_mod_converse_div(
                            addr as int,
                            PAGE_SIZE as int,
                            start as int,
                            0,
                        );
                    }
                    let handle = Alloc::<u8>::new(addr, len);
                    proof {
                        Self::lemma_assemble_mapped(*self, handle, frame_index as int,
                            count as int, start as int);
                        assert forall|b: int|
                            0 <= b < old(self).pages_len() * 64 && #[trigger] old(self).block(b)
                                && !old(self).is_table_block(b) implies self.block(b)
                            && !self.is_table_block(b) by {
                            assert(found.block(b) && !found.is_table_block(b));
                            let ghost ol = old(self).pages_len();
                            assert(0 <= b < found.pages_len() * 64) by (nonlinear_arith)
                                requires
                                    0 <= b < ol * 64,
                                    found.pages_len() >= ol,
                            ;
                            found.lemma_page_of_block(b);
                            found.lemma_block_nonempty(b);
                            assert(!(start <= b / 64 < start + count));
                            assert(self.page_value(b / 64) == found.page_value(b / 64));
                            assert(self.table_page() == found.table_page());
                            assert(self.pages_len() == found.pages_len());
                        }
                        if spec_has_page_run(*old(self), count as int) {
                            assert(found == *old(self));
                            assert(self.addressor().frame_table()
                                == found.addressor().frame_table());
                        }
                        if self.pages_len() == old(self).pages_len() {
                            assert(found.pages_len() == old(self).pages_len());
                            assert(found == *old(self));
                            assert forall|o: int|
                                start <= o < start + count implies old(self).page_empty(o) by {
                                assert(found.page_empty(o));
                            }
                            assert forall|o: int|
                                start <= o < start + count implies self.page_full(o) && (
                            self.addressor().spec_mapping(o) is Some
                                && self.addressor().spec_mapping(o)->0.frame == frame_index + o
                                - start) by {
                                assert(self.page_full(o) && (self.addressor().spec_mapping(
                                    o,
                                ) matches Some(m) && m.frame == frame_index + o - start));
                            }
                            assert forall|o: int|
                                0 <= o < self.pages_len() && !(start <= o < start + count) implies
                            self.page_value(o) == old(self).page_value(o) by {
                                assert(self.page_value(o) == found.page_value(o));
                            }
                            Self::lemma_assemble_bound(*old(self), *self, handle,
                                frame_index as int, count as int, start as int);
                        }
                    }
                    return Ok(handle);
                },
                None => {
                    proof {
                        if spec_has_page_run(*self, count as int) {
                            let t = choose|t: int|
                                0 <= t && #[trigger] (t % 1int) == 0 && t + count
                                    <= self.pages_len() && (forall|p: int|
                                    t <= p < t + count ==> self.page_empty(p));
                            assert(exists|p: int| t <= p < t + count && !self.page_empty(p));
                        }
                        assert(!spec_has_page_run(*old(self), count as int));
                    }
                    let ghost before_grow = *self;
                    proof {
                        self.map.addressor.lemma_wf_frame_table();
                        self.map.addressor.frame_table().lemma_wf_bounds();
                        crate::pmm::FrameAllocator::lemma_mul_bound(
                            count as int,
                            PAGE_SIZE as int,
                            usize::MAX as int,
                        );
                        assert(count as int <= self.addressor().frame_table().capacity());
                        assert(count as int * 64 <= count as int * PAGE_SIZE)
                            by (nonlinear_arith)
                            requires
                                count >= 0,
                        ;
                    }
                    match self.grow(count * 64) {
                        Err(e) => {
                            proof {
                                assert forall|b: int|
                                    0 <= b < old(self).pages_len() * 64 && #[trigger] old(self).block(b) && !old(self).is_table_block(b) implies self.block(b)
                                    && !self.is_table_block(b) by {
                                    assert(before_grow.block(b) && !before_grow.is_table_block(b));
                                    assert(self.page_value(b / 64) == before_grow.page_value(
                                        b / 64,
                                    ));
                                    assert(self.table_page() == before_grow.table_page());
                                    assert(self.pages_len() == before_grow.pages_len());
                                }
                            }
                            return Err(e);
                        },
                        Ok(()) => {
                            proof {
                                assert forall|g: int|
                                    frame_index <= g < frame_index + count implies
                                self.addressor().frame_table().is_set(g) by {
                                    assert(before_grow.addressor().frame_table().is_set(g));
                                    before_grow.map.addressor.lemma_wf_frame_table();
                                    before_grow.map.addressor.frame_table().lemma_wf_bounds();
                                    assert(0 <= g
                                        < before_grow.addressor().frame_table().capacity());
                                }
                                assert forall|p: int|
                                    #[trigger] self.addressor().spec_mapping(p) is Some implies !(
                                frame_index <= self.addressor().spec_mapping(p)->0.frame
                                    < frame_index + count) by {
                                    let fr = self.addressor().spec_mapping(p)->0.frame as int;
                                    if frame_index <= fr < frame_index + count {
                                        assert(before_grow.addressor().frame_table().is_set(fr));
                                        assert(spec_frame_unowned(before_grow, fr));
                                    }
                                }
                                assert forall|b: int|
                                    0 <= b < old(self).pages_len() * 64 && #[trigger] old(self).block(b) && !old(self).is_table_block(b) implies self.block(b)
                                    && !self.is_table_block(b) by {
                                    assert(before_grow.block(b) && !before_grow.is_table_block(b));
                                    let ghost ol = old(self).pages_len();
                                    assert(0 <= b < before_grow.pages_len() * 64)
                                        by (nonlinear_arith)
                                        requires
                                            0 <= b < ol * 64,
                                            before_grow.pages_len() >= ol,
                                    ;
                                }
                            }
                        },
                    }
                },
            }
        }
    }

    /// Restates the facts of a bound run over the handle that names it.
    proof fn lemma_assemble_bound(
        pre: BlockAllocator,
        post: BlockAllocator,
        a: Alloc<u8>,
        frame_index: int,
        count: int,
        s: int,
    )
        requires
            s == a.spec_addr() as int / PAGE_SIZE as int,
            a.spec_addr() == s * PAGE_SIZE,
            a.spec_len() == count * PAGE_SIZE,
            s + count <= post.pages_len(),
            forall|o: int|
                s <= o < s + count ==> post.page_full(o) && (post.addressor().spec_mapping(
                    o,
                ) matches Some(m) && m.frame == frame_index + o - s),
            forall|o: int| s <= o < s + count ==> pre.page_empty(o),
            forall|o: int|
                0 <= o < post.pages_len() && !(s <= o < s + count) ==> post.page_value(o)
                    == pre.page_value(o),
        ensures
            spec_pages_bound(pre, post, a, frame_index, count),
    {
    }

    /// Restates the post-state facts of a bound run over its handle.
    proof fn lemma_assemble_mapped(
        post: BlockAllocator,
        a: Alloc<u8>,
        frame_index: int,
        count: int,
        s: int,
    )
        requires
            s == a.spec_addr() as int / PAGE_SIZE as int,
            a.spec_addr() == s * PAGE_SIZE,
            a.spec_len() == count * PAGE_SIZE,
            s + count <= post.pages_len(),
            forall|o: int|
                s <= o < s + count ==> post.page_full(o) && (post.addressor().spec_mapping(
                    o,
                ) matches Some(m) && m.frame == frame_index + o - s),
        ensures
            spec_pages_mapped(post, a, frame_index, count),
    {
    }

    /// Serve `count` whole pages of virtual memory backed by physically
    /// contiguous frames: a fresh run of frames is reserved first, then bound
    /// to a run of empty pages, growing the map when no run of pages fits.
    /// Returns the physical address of the first frame beside the handle.
    #[verifier::rlimit(100)]
    /// Serve `count` pages backed by `count` physically consecutive frames,
    /// taken from the frame table first: if no such frame run exists, the
    /// request fails before the virtual map is touched at all.
    pub fn alloc_contiguous(&mut self, count: usize) -> (r: Result<
        (crate::addr::Address<crate::addr::Physical>, Alloc<u8>),
        AllocError,
    >)
        requires
            old(self).wf(),
            count >= 1,
            old(self).addressor().frame_table().frames() * PAGE_SIZE <= 0x0010_0000_0000_0000,
        ensures
            final(self).wf(),
            final(self).pages_len() >= old(self).pages_len(),
            final(self).addressor().spec_mapped_offset() == old(self).addressor().spec_mapped_offset(),
            final(self).addressor().frame_table().capacity() == old(self).addressor().frame_table().capacity(),
            final(self).addressor().frame_table().frames() == old(self).addressor().frame_table().frames(),
            forall|f: int|
                0 <= f < old(self).addressor().frame_table().capacity() && old(self).addressor().frame_table().is_set(f) ==> final(self).addressor().frame_table().is_set(f),
            forall|b: int|
                0 <= b < old(self).pages_len() * 64 && #[trigger] old(self).block(b) && !old(self).is_table_block(b) ==> final(self).block(b) && !final(self).is_table_block(b),
            r matches Ok(pair) ==> pair.0.spec_get() as int == (pair.0.spec_get() as int
                / PAGE_SIZE as int) * PAGE_SIZE && pair.0.spec_get() as int / PAGE_SIZE as int
                + count <= final(self).addressor().frame_table().frames() && spec_pages_mapped(
                *final(self),
                pair.1,
                pair.0.spec_get() as int / PAGE_SIZE as int,
                count as int,
            ),
            r matches Ok(pair) ==> (forall|g: int|
                pair.0.spec_get() as int / PAGE_SIZE as int <= g < pair.0.spec_get() as int
                    / PAGE_SIZE as int + count ==> !old(self).addressor().frame_table().is_set(g)
                    && final(self).addressor().frame_table().is_set(g)),
            r matches Ok(pair) ==> (final(self).pages_len() == old(self).pages_len() ==> forall|
                o: int,
            |
                pair.1.spec_addr() as int / PAGE_SIZE as int <= o < pair.1.spec_addr() as int
                    / PAGE_SIZE as int + count ==> old(self).page_empty(o)),
            r matches Err(e) ==> ({
                &&& (e is OutOfMemory || e matches AllocError::FallocError(_))
                &&& (e matches AllocError::FallocError(fe) ==> ({
                    &&& fe == crate::pmm::Error::NoneFree
                    &&& final(self).pages_len() == old(self).pages_len()
                    &&& final(self).table_page() == old(self).table_page()
                    &&& forall|o: int|
                        0 <= o < final(self).pages_len() ==> final(self).page_value(o) == old(self).page_value(o)
                    &&& forall|p: int|
                        final(self).addressor().spec_mapping(p) == old(self).addressor().spec_mapping(p)
                    &&& forall|f: int|
                        0 <= f < final(self).addressor().frame_table().capacity() ==> final(self).addressor().frame_table().is_set(f) == old(self).addressor().frame_table().is_set(f)
                    &&& forall|t: int|
                        0 <= t && #[trigger] (t % 1int) == 0 && t + count <= final(self).addressor().frame_table().capacity() ==> exists|j: int|
                            t <= j < t + count && final(self).addressor().frame_table().is_set(j)
                }))
                &&& (e is OutOfMemory ==> count > usize::MAX / PAGE_SIZE
                    || spec_frames_exhausted(*final(self)) || spec_grown_len(
                    final(self).pages_len(),
                    count as int * 64,
                ) > usize::MAX as int / PAGE_SIZE as int)
            }),
    {
        if count > usize::MAX / 4096 {
            return Err(AllocError::OutOfMemory);
        }
        let fi = match self.map.addressor.lock_next_many(count) {
            Err(e) => {
                proof {
                    Self::lemma_same_state_wf_frames(*old(self), *self);
                    assert forall|t: int|
                        0 <= t && #[trigger] (t % 1int) == 0 && t + count
                            <= self.addressor().frame_table().capacity() implies exists|j: int|
                        t <= j < t + count && self.addressor().frame_table().is_set(j) by {
                        assert(exists|j: int|
                            t <= j < t + count && old(self).addressor().frame_table().is_set(j));
                        let j = choose|j: int|
                            t <= j < t + count && old(self).addressor().frame_table().is_set(j);
                        old(self).map.addressor.lemma_wf_frame_table();
                        old(self).map.addressor.frame_table().lemma_wf_bounds();
                        assert(self.addressor().frame_table().is_set(j));
                    }
                }
                return Err(AllocError::FallocError(e));
            },
            Ok(fi) => fi,
        };
        let ghost locked = *self;
        proof {
            // the freshly locked frames were free, so no mapping owns them
            assert forall|p: int|
                #[trigger] self.map.addressor.spec_mapping(p) is Some implies !(fi
                <= self.map.addressor.spec_mapping(p)->0.frame < fi + count) by {
                assert(self.map.addressor.spec_mapping(p)
                    == old(self).map.addressor.spec_mapping(p));
                old(self).map.addressor.lemma_mapped_frame_set(p);
                let g = self.map.addressor.spec_mapping(p)->0.frame as int;
                if fi <= g < fi + count {
                    assert(!old(self).addressor().frame_table().is_set(g));
                }
            }
            assert forall|g: int|
                fi <= g < fi + count implies self.addressor().frame_table().is_set(g) by {
                old(self).map.addressor.lemma_wf_frame_table();
                old(self).map.addressor.frame_table().lemma_wf_bounds();
                assert(0 <= g < self.addressor().frame_table().capacity());
            }
            assert(self.wf()) by {
                Self::lemma_same_state_wf_frames(*old(self), *self);
            }
        }
        let handle = match self.alloc_against(fi, count) {
            Err(e) => {
                proof {
                    assert forall|b: int|
                        0 <= b < old(self).pages_len() * 64 && #[trigger] old(self).block(b)
                            && !old(self).is_table_block(b) implies self.block(b)
                        && !self.is_table_block(b) by {
                        assert(locked.block(b) && !locked.is_table_block(b));
                    }
                }
                return Err(e);
            },
            Ok(handle) => handle,
        };
        proof {
            self.map.addressor.lemma_wf_frame_table();
            crate::pmm::FrameAllocator::lemma_frame_index_small(
                fi as int + count - 1,
                self.map.addressor.frame_table(),
            );
            assert(fi as int * PAGE_SIZE + PAGE_SIZE <= (fi as int + count - 1) * PAGE_SIZE
                + PAGE_SIZE) by (nonlinear_arith)
                requires
                    count >= 1,
                    PAGE_SIZE >= 1,
            ;
        }
        let pstart = fi * 4096;
        proof {
            vstd::arithmetic::div_mod::lemma_fundamental_div_mod_converse_div(
                pstart as int,
                PAGE_SIZE as int,
                fi as int,
                0,
            );
            assert(pstart + 4096 <= 0x0010_0000_0000_0000);
            assert((pstart as u64) & !0x000F_FFFF_FFFF_FFFFu64 == 0) by (bit_vector)
                requires
                    (pstart as u64) + 4096 <= 0x0010_0000_0000_0000u64,
            ;
            assert forall|g: int|
                fi <= g < fi + count implies !old(self).addressor().frame_table().is_set(g)
                && self.addressor().frame_table().is_set(g) by {
                assert(!old(self).addressor().frame_table().is_set(g));
                assert(locked.addressor().frame_table().is_set(g));
                old(self).map.addressor.lemma_wf_frame_table();
                old(self).map.addressor.frame_table().lemma_wf_bounds();
                assert(0 <= g < locked.addressor().frame_table().capacity());
            }
            assert forall|b: int|
                0 <= b < old(self).pages_len() * 64 && #[trigger] old(self).block(b) && !old(self).is_table_block(b) implies self.block(b) && !self.is_table_block(b) by {
                assert(locked.block(b) && !locked.is_table_block(b));
            }
            if self.pages_len() == old(self).pages_len() {
                assert(spec_pages_bound(locked, *self, handle, fi as int, count as int));
                assert forall|o: int|
                    handle.spec_addr() as int / PAGE_SIZE as int <= o < handle.spec_addr() as int
                        / PAGE_SIZE as int + count implies old(self).page_empty(o) by {
                    assert(locked.page_empty(o));
                    assert(locked.page_value(o) == old(self).page_value(o));
                }
            }
        }
        let paddr = crate::addr::Address::<crate::addr::Physical>::new(pstart).unwrap();
        Ok((paddr, handle))
    }

    /// Well-formedness survives when only the frame table changed, and only
    /// by locking more frames.
    proof fn lemma_same_state_wf_frames(pre: BlockAllocator, now: BlockAllocator)
        requires
            pre.wf(),
            now.map.pages == pre.map.pages,
            now.map.table_page == pre.map.table_page,
            now.map.addressor.wf(),
            now.map.addressor.is_active(),
            forall|p: int|
                now.map.addressor.spec_mapping(p) == pre.map.addressor.spec_mapping(p),
        ensures
            now.wf(),
    {
        assert forall|p: int| #[trigger] now.page_value(p) == pre.page_value(p) by {}
        if now.pages_len() > 0 {
            assert(pre.page_full(0));
            assert(now.page_full(0));
            assert forall|p: int|
                now.table_page() <= p < now.table_page() + now.table_pages() implies
                #[trigger] now.page_full(p) by {
                assert(pre.page_full(p));
            }
        }
        assert forall|p: int| #[trigger] now.map.addressor.is_mapped(p) implies 0 <= p
            < now.pages_len() && !now.page_empty(p) by {
            assert(pre.map.addressor.spec_mapping(p) == now.map.addressor.spec_mapping(p));
            assert(pre.map.addressor.is_mapped(p));
        }
        assert forall|p: int|
            1 <= p < now.pages_len() && !(#[trigger] now.page_empty(p)) implies
            now.map.addressor.is_mapped(p) by {
            assert(!pre.page_empty(p));
            assert(pre.map.addressor.is_mapped(p));
            assert(pre.map.addressor.spec_mapping(p) == now.map.addressor.spec_mapping(p));
        }
        assert forall|p1: int, p2: int|
            p1 != p2 && #[trigger] now.map.addressor.spec_mapping(p1) is Some
                && #[trigger] now.map.addressor.spec_mapping(p2) is Some implies
            now.map.addressor.spec_mapping(p1)->0.frame != now.map.addressor.spec_mapping(
            p2,
        )->0.frame by {
            assert(pre.map.addressor.spec_mapping(p1) == now.map.addressor.spec_mapping(p1));
            assert(pre.map.addressor.spec_mapping(p2) == now.map.addressor.spec_mapping(p2));
        }
    }

    /// Bind the pages `[frame_index, frame_index + count)` one-to-one to the
    /// frames with the same indices. All or nothing: if any page of the range
    /// is already in use, every page this call mapped is unmapped and cleared
    /// again before `IdentityMappingOverlaps` is reported. The target frames
    /// must be real, already reserved, and owned by no mapping; the map must
    /// already cover the range.
    #[verifier::rlimit(100)]
    pub fn alloc_identity(&mut self, frame_index: usize, count: usize) -> (r: Result<
        Alloc<u8>,
        AllocError,
    >)
        requires
            old(self).wf(),
            count >= 1,
            frame_index + count <= old(self).addressor().frame_table().frames(),
            forall|g: int|
                frame_index <= g < frame_index + count ==> old(self).addressor().frame_table().is_set(g),
            forall|p: int|
                #[trigger] old(self).addressor().spec_mapping(p) is Some ==> !(frame_index <= old(self).addressor().spec_mapping(p)->0.frame < frame_index + count
                    && (frame_index + count > old(self).pages_len() || old(self).page_empty(
                    old(self).addressor().spec_mapping(p)->0.frame as int,
                ))),
        ensures
            final(self).wf(),
            final(self).pages_len() >= old(self).pages_len(),
            frame_index + count <= old(self).pages_len() ==> final(self).pages_len() == old(self).pages_len(),
            frame_index + count <= old(self).pages_len() && (exists|p: int|
                frame_index <= p < frame_index + count && !(#[trigger] old(self).page_empty(p)))
                ==> r == Result::<Alloc<u8>, AllocError>::Err(AllocError::IdentityMappingOverlaps),
            final(self).addressor().spec_mapped_offset() == old(self).addressor().spec_mapped_offset(),
            final(self).addressor().frame_table().capacity() == old(self).addressor().frame_table().capacity(),
            final(self).addressor().frame_table().frames() == old(self).addressor().frame_table().frames(),
            forall|f: int|
                0 <= f < old(self).addressor().frame_table().capacity() && old(self).addressor().frame_table().is_set(f) ==> final(self).addressor().frame_table().is_set(
                    f,
                ),
            forall|b: int|
                0 <= b < old(self).pages_len() * 64 && #[trigger] old(self).block(b) && !old(self).is_table_block(b) ==> final(self).block(b) && !final(self).is_table_block(b),
            r matches Ok(a) ==> spec_pages_mapped(*final(self), a, frame_index as int, count as int)
                && a.spec_addr() == frame_index * PAGE_SIZE && (final(self).pages_len() == old(self).pages_len() ==> spec_pages_bound(
                *old(self),
                *final(self),
                a,
                frame_index as int,
                count as int,
            )),
            r matches Err(e) ==> ({
                &&& (e is IdentityMappingOverlaps || e is OutOfMemory)
                &&& (e is OutOfMemory ==> spec_frames_exhausted(*final(self)) || spec_grown_len(
                    old(self).pages_len(),
                    (frame_index + count) as int * 64,
                ) > usize::MAX as int / PAGE_SIZE as int)
                &&& (e is IdentityMappingOverlaps ==> exists|p: int|
                    frame_index <= p < frame_index + count && !(#[trigger] final(self).page_empty(
                        p,
                    )))
                &&& (e is IdentityMappingOverlaps && final(self).pages_len() == old(self).pages_len() ==> {
                    &&& exists|p: int|
                        frame_index <= p < frame_index + count && !(#[trigger] old(self).page_empty(p))
                    &&& forall|p: int|
                        frame_index <= p < frame_index + count && #[trigger] old(self).page_empty(
                            p,
                        ) ==> final(self).page_empty(p) && !final(self).addressor().is_mapped(p)
                    &&& forall|p: int|
                        0 <= p < final(self).pages_len() && !(frame_index <= p < frame_index
                            + count) ==> final(self).page_value(p) == old(self).page_value(p)
                    &&& forall|p: int|
                        !(frame_index <= p < frame_index + count) ==> final(self).addressor().spec_mapping(p) == old(self).addressor().spec_mapping(p)
                })
            }),
    {
        proof {
            old(self).map.addressor.lemma_wf_frame_table();
            old(self).map.addressor.frame_table().lemma_wf_bounds();
            crate::pmm::FrameAllocator::lemma_mul_bound(
                old(self).addressor().frame_table().capacity(),
                PAGE_SIZE as int,
                usize::MAX as int,
            );
            assert((frame_index + count) as int * 64 <= (frame_index + count) as int * PAGE_SIZE)
                by (nonlinear_arith)
                requires
                    frame_index + count >= 0,
            ;
            crate::pmm::FrameAllocator::lemma_mul_bound(
                (frame_index + count) as int,
                PAGE_SIZE as int,
                usize::MAX as int,
            );
        }
        if self.map.pages.len() < frame_index + count {
            let ghost before_grow = *self;
            match self.grow((frame_index + count) * 64) {
                Err(e) => {
                    return Err(e);
                },
                Ok(()) => {
                    proof {
                        // the grown map covers the requested range
                        let blocks = (frame_index + count) as int * 64;
                        assert(spec_blocks_to_pages(blocks) == frame_index + count) by {
                            vstd::arithmetic::div_mod::lemma_fundamental_div_mod_converse(
                                blocks,
                                64,
                                (frame_index + count) as int,
                                0,
                            );
                        }
                        lemma_npot_bounds(before_grow.pages_len() + (frame_index + count));
                        assert(self.pages_len() >= frame_index + count);
                        // the range's frames are still reserved and unowned
                        assert forall|g: int|
                            frame_index <= g < frame_index + count implies
                        self.addressor().frame_table().is_set(g) by {
                            assert(before_grow.addressor().frame_table().is_set(g));
                        }
                        assert forall|q: int|
                            #[trigger] self.addressor().spec_mapping(q) is Some implies !(
                        frame_index <= self.addressor().spec_mapping(q)->0.frame < frame_index
                            + count) by {
                            let fr = self.addressor().spec_mapping(q)->0.frame as int;
                            if frame_index <= fr < frame_index + count {
                                assert(before_grow.addressor().frame_table().is_set(fr));
                                assert(spec_frame_unowned(before_grow, fr)) by {
                                    assert(before_grow == *old(self));
                                    assert(frame_index + count > old(self).pages_len());
                                }
                            }
                        }
                    }
                },
            }
        }
        let ghost pre = *self;
        proof {
            assert(pre.pages_len() > 0);
            assert(pre.pages_len() == old(self).pages_len() ==> pre == *old(self));
            assert(frame_index + count <= old(self).pages_len() ==> pre == *old(self));
            assert forall|q: int|
                #[trigger] pre.addressor().spec_mapping(q) is Some implies !(frame_index
                    <= pre.addressor().spec_mapping(q)->0.frame < frame_index + count
                    && pre.page_empty(pre.addressor().spec_mapping(q)->0.frame as int)) by {
                let g = pre.addressor().spec_mapping(q)->0.frame as int;
                if frame_index <= g < frame_index + count && pre.page_empty(g) {
                    if frame_index + count <= old(self).pages_len() {
                        assert(pre == *old(self));
                    }
                }
            }
        }
        let mut p = frame_index;
        while p < frame_index + count
            invariant
                pre.pages_len() >= old(self).pages_len(),
                pre.pages_len() == old(self).pages_len() ==> pre == *old(self),
                pre.addressor().spec_mapped_offset() == old(self).addressor().spec_mapped_offset(),
                pre.addressor().frame_table().capacity() == old(self).addressor().frame_table().capacity(),
                pre.addressor().frame_table().frames() == old(self).addressor().frame_table().frames(),
                forall|f: int|
                    0 <= f < old(self).addressor().frame_table().capacity() && old(self).addressor().frame_table().is_set(f) ==> pre.addressor().frame_table().is_set(
                        f,
                    ),
                forall|b: int|
                    0 <= b < old(self).pages_len() * 64 && #[trigger] old(self).block(b) && !old(self).is_table_block(b) ==> pre.block(b) && !pre.is_table_block(b),
                pre.wf(),
                count >= 1,
                frame_index <= p <= frame_index + count,
                frame_index + count <= pre.addressor().frame_table().frames(),
                frame_index + count <= pre.pages_len(),
                frame_index + count <= old(self).pages_len() ==> pre == *old(self),
                forall|g: int|
                    frame_index <= g < frame_index + count ==> pre.addressor().frame_table().is_set(
                        g,
                    ),
                forall|q: int|
                    #[trigger] pre.addressor().spec_mapping(q) is Some ==> !(frame_index
                        <= pre.addressor().spec_mapping(q)->0.frame < frame_index + count
                        && pre.page_empty(pre.addressor().spec_mapping(q)->0.frame as int)),
                self.pages_len() == pre.pages_len(),
                self.map.table_page == pre.map.table_page,
                self.map.addressor.wf(),
                self.map.addressor.is_active(),
                self.map.addressor.spec_mapped_offset() == pre.addressor().spec_mapped_offset(),
                self.map.addressor.frame_table().capacity()
                    == pre.addressor().frame_table().capacity(),
                self.map.addressor.frame_table().frames() == pre.addressor().frame_table().frames(),
                forall|f: int|
                    0 <= f < pre.addressor().frame_table().capacity()
                        && pre.addressor().frame_table().is_set(f)
                        ==> self.map.addressor.frame_table().is_set(f),
                forall|q: int| frame_index <= q < p ==> #[trigger] pre.page_empty(q),
                forall|q: int|
                    frame_index <= q < p ==> #[trigger] self.page_value(q) == u64::MAX,
                forall|q: int|
                    frame_index <= q < p ==> (#[trigger] self.map.addressor.spec_mapping(
                        q,
                    ) matches Some(m) && m.frame == q),
                forall|q: int|
                    !(frame_index <= q < p) ==> #[trigger] self.map.addressor.spec_mapping(q)
                        == pre.addressor().spec_mapping(q),
                forall|q: int|
                    0 <= q < self.pages_len() && !(frame_index <= q < p) ==> self.page_value(q)
                        == pre.page_value(q),
            decreases frame_index + count - p,
        {
            let ghost at_p = *self;
            if self.map.pages[p].is_empty() {
                proof {
                    assert(self.page_value(p as int) == pre.page_value(p as int));
                    assert(pre.page_empty(p as int));
                    if pre.addressor().is_mapped(p as int) {
                        assert(!pre.page_empty(p as int));
                    }
                    assert(self.map.addressor.spec_mapping(p as int)
                        == pre.addressor().spec_mapping(p as int));
                }
                let res = self.map.addressor.identity_map(p);
                proof {
                    assert(res is Ok);
                    assert forall|f: int|
                        0 <= f < pre.addressor().frame_table().capacity()
                            && pre.addressor().frame_table().is_set(f) implies
                    self.map.addressor.frame_table().is_set(f) by {
                        assert(at_p.map.addressor.frame_table().is_set(f));
                    }
                }
                self.map.pages[p] = BlockPage(u64::MAX);
                proof {
                    assert forall|q: int|
                        !(frame_index <= q < p + 1)
                        implies #[trigger] self.map.addressor.spec_mapping(q)
                        == pre.addressor().spec_mapping(q) by {
                        assert(q != p as int);
                        assert(self.map.addressor.spec_mapping(q)
                            == at_p.map.addressor.spec_mapping(q));
                    }
                    assert forall|q: int|
                        0 <= q < self.pages_len() && !(frame_index <= q < p + 1) implies
                        self.page_value(q) == pre.page_value(q) by {
                        assert(q != p as int);
                        assert(self.page_value(q) == at_p.page_value(q));
                    }
                    assert forall|q: int|
                        frame_index <= q < p + 1 implies #[trigger] pre.page_empty(q) by {}
                    assert forall|q: int|
                        frame_index <= q < p + 1 implies #[trigger] self.page_value(q)
                            == u64::MAX by {
                        if q != p as int {
                            assert(self.page_value(q) == at_p.page_value(q));
                            assert(at_p.page_value(q) == u64::MAX);
                        }
                    }
                }
            } else {
                // roll back every page this call mapped
                proof {
                    assert(self.page_value(p as int) == pre.page_value(p as int));
                    assert(!pre.page_empty(p as int));
                }
                let mut k = frame_index;
                while k < p
                    invariant
                        pre.pages_len() >= old(self).pages_len(),
                        pre.pages_len() == old(self).pages_len() ==> pre == *old(self),
                        pre.addressor().spec_mapped_offset() == old(self).addressor().spec_mapped_offset(),
                        pre.addressor().frame_table().capacity() == old(self).addressor().frame_table().capacity(),
                        pre.addressor().frame_table().frames() == old(self).addressor().frame_table().frames(),
                        forall|f: int|
                            0 <= f < old(self).addressor().frame_table().capacity() && old(self).addressor().frame_table().is_set(f) ==> pre.addressor().frame_table().is_set(
                                f,
                            ),
                        forall|b: int|
                            0 <= b < old(self).pages_len() * 64 && #[trigger] old(self).block(b) && !old(self).is_table_block(b) ==> pre.block(b) && !pre.is_table_block(b),
                        pre.wf(),
                        frame_index <= k <= p < frame_index + count,
                        frame_index + count <= pre.pages_len(),
                        frame_index + count <= old(self).pages_len() ==> pre == *old(self),
                        frame_index + count <= pre.addressor().frame_table().frames(),
                        self.pages_len() == pre.pages_len(),
                        self.map.table_page == pre.map.table_page,
                        self.map.addressor.wf(),
                        self.map.addressor.is_active(),
                        self.map.addressor.spec_mapped_offset()
                            == pre.addressor().spec_mapped_offset(),
                        self.map.addressor.frame_table().capacity()
                            == pre.addressor().frame_table().capacity(),
                        self.map.addressor.frame_table().frames()
                            == pre.addressor().frame_table().frames(),
                        forall|f: int|
                            0 <= f < pre.addressor().frame_table().capacity()
                                && pre.addressor().frame_table().is_set(f)
                                ==> self.map.addressor.frame_table().is_set(f),
                        forall|q: int| frame_index <= q < p ==> #[trigger] pre.page_empty(q),
                        forall|q: int|
                            k <= q < p ==> (#[trigger] self.map.addressor.spec_mapping(
                                q,
                            ) matches Some(m) && m.frame == q),
                        forall|q: int|
                            k <= q < p ==> #[trigger] self.page_value(q) == u64::MAX,
                        forall|q: int|
                            frame_index <= q < k ==> #[trigger] self.map.addressor.spec_mapping(
                                q,
                            ) is None,
                        forall|q: int|
                            !(frame_index <= q < p) ==> #[trigger] self.map.addressor.spec_mapping(
                                q,
                            ) == pre.addressor().spec_mapping(q),
                        forall|q: int|
                            0 <= q < self.pages_len() && !(k <= q < p) ==> self.page_value(q)
                                == pre.page_value(q),
                    decreases p - k,
                {
                    let ghost at_k = *self;
                    let res = self.map.addressor.unmap(k, false);
                    proof {
                        assert(res is Ok);
                        assert forall|q: int|
                            q != k as int implies #[trigger] self.map.addressor.spec_mapping(q)
                            == at_k.map.addressor.spec_mapping(q) by {}
                    }
                    self.map.pages[k] = BlockPage(0);
                    proof {
                        assert forall|q: int|
                            0 <= q < self.pages_len() && !(k + 1 <= q < p) implies self.page_value(
                            q,
                        ) == pre.page_value(q) by {
                            if q != k as int {
                                assert(self.page_value(q) == at_k.page_value(q));
                            } else {
                                assert(pre.page_empty(k as int));
                            }
                        }
                        assert forall|q: int|
                            k + 1 <= q < p implies #[trigger] self.page_value(q) == u64::MAX by {
                            assert(self.page_value(q) == at_k.page_value(q));
                        }
                    }
                    k += 1;
                }
                proof {
                    assert forall|q: int| self.map.addressor.spec_mapping(q)
                        == pre.addressor().spec_mapping(q) by {
                        if frame_index <= q < p {
                            assert(self.map.addressor.spec_mapping(q) is None);
                            if pre.addressor().is_mapped(q) {
                                assert(!pre.page_empty(q));
                            }
                        }
                    }
                    assert forall|q: int|
                        0 <= q < self.pages_len() implies #[trigger] self.page_value(q)
                        == pre.page_value(q) by {
                        if k <= q < p {
                            assert(pre.page_empty(q));
                        }
                    }
                    Self::lemma_same_state_wf_values(pre, *self);
                    // the overlapping page is still in use afterwards
                    assert(!self.page_empty(p as int)) by {
                        assert(self.page_value(p as int) == pre.page_value(p as int));
                    }
                    // the original state's live blocks and frames survive
                    assert forall|b: int|
                        0 <= b < old(self).pages_len() * 64 && #[trigger] old(self).block(b)
                            && !old(self).is_table_block(b) implies self.block(b)
                        && !self.is_table_block(b) by {
                        assert(pre.block(b) && !pre.is_table_block(b));
                        let ghost ol = old(self).pages_len();
                        assert(0 <= b < pre.pages_len() * 64) by (nonlinear_arith)
                            requires
                                0 <= b < ol * 64,
                                pre.pages_len() >= ol,
                        ;
                        pre.lemma_page_of_block(b);
                        assert(self.page_value(b / 64) == pre.page_value(b / 64));
                        assert(self.table_page() == pre.table_page());
                        assert(self.pages_len() == pre.pages_len());
                    }
                    assert forall|f: int|
                        0 <= f < old(self).addressor().frame_table().capacity() && old(self).addressor().frame_table().is_set(f) implies
                    self.map.addressor.frame_table().is_set(f) by {
                        assert(pre.addressor().frame_table().is_set(f));
                    }
                    // with no growth, the rollback is exact against the start
                    if self.pages_len() == old(self).pages_len() {
                        assert(pre.pages_len() == old(self).pages_len());
                        assert(pre == *old(self));
                        assert forall|q: int|
                            frame_index <= q < frame_index + count && #[trigger] old(self).page_empty(q) implies self.page_empty(q) && !self.map.addressor.is_mapped(
                            q,
                        ) by {
                            assert(self.page_value(q) == pre.page_value(q));
                            assert(self.map.addressor.spec_mapping(q)
                                == pre.addressor().spec_mapping(q));
                            if pre.addressor().is_mapped(q) {
                                assert(!pre.page_empty(q));
                            }
                        }
                    }
                }
                return Err(AllocError::IdentityMappingOverlaps);
            }
            p += 1;
        }
        proof {
            assert(pre.page_full(0));
            assert forall|q: int|
                frame_index <= q < frame_index + count implies q >= 1 && !(
            #[trigger] pre.is_table_page(q)) by {
                assert(self.page_value(q) == u64::MAX);
                assert(pre.page_empty(q));
                if q == 0 {
                    assert(pre.page_full(0));
                }
                if pre.is_table_page(q) {
                    assert(pre.page_full(q));
                }
            }
            assert(frame_index >= 1) by {
                assert(self.page_value(frame_index as int) == u64::MAX);
                assert(pre.page_empty(frame_index as int));
                if frame_index == 0 {
                    assert(pre.page_full(0));
                }
            }
            assert forall|q: int|
                #[trigger] pre.addressor().spec_mapping(q) is Some implies !(frame_index
                    <= pre.addressor().spec_mapping(q)->0.frame < frame_index + count) by {
                let g = pre.addressor().spec_mapping(q)->0.frame as int;
                if frame_index <= g < frame_index + count {
                    assert(pre.page_empty(g));
                }
            }
            Self::lemma_bind_commit(pre, *self, frame_index as int, frame_index as int,
                count as int);
        }
        let addr = frame_index * 4096;
        let len = count * 4096;
        proof {
            crate::pmm::FrameAllocator::lemma_mul_bound(
                pre.pages_len(),
                PAGE_SIZE as int,
                usize::MAX as int,
            );
            assert((frame_index as int + count) * PAGE_SIZE <= pre.pages_len() * PAGE_SIZE)
                by (nonlinear_arith)
                requires
                    frame_index + count <= pre.pages_len(),
                    PAGE_SIZE >= 1,
            ;
            vstd::arithmetic::div_mod::lemma_fundamental_div_mod_converse_div(
                addr as int,
                PAGE_SIZE as int,
                frame_index as int,
                0,
            );
        }
        let handle = Alloc::<u8>::new(addr, len);
        proof {
            Self::lemma_assemble_bound(pre, *self, handle, frame_index as int, count as int,
                frame_index as int);
            Self::lemma_assemble_mapped(*self, handle, frame_index as int, count as int,
                frame_index as int);
            if self.pages_len() == old(self).pages_len() {
                assert(pre.pages_len() == old(self).pages_len());
                assert(pre == *old(self));
            }
            if frame_index + count <= old(self).pages_len() {
                assert(pre == *old(self));
                assert forall|q: int|
                    frame_index <= q < frame_index + count implies #[trigger] old(self).page_empty(
                    q,
                ) by {
                    assert(pre.page_empty(q));
                }
            }
            assert forall|b: int|
                0 <= b < old(self).pages_len() * 64 && #[trigger] old(self).block(b) && !old(self).is_table_block(b) implies self.block(b) && !self.is_table_block(b) by {
                assert(pre.block(b) && !pre.is_table_block(b));
                let ghost ol = old(self).pages_len();
                assert(0 <= b < pre.pages_len() * 64) by (nonlinear_arith)
                    requires
                        0 <= b < ol * 64,
                        pre.pages_len() >= ol,
                ;
                pre.lemma_page_of_block(b);
                pre.lemma_block_nonempty(b);
                assert(!(frame_index <= b / 64 < frame_index + count));
                assert(self.page_value(b / 64) == pre.page_value(b / 64));
                assert(self.table_page() == pre.table_page());
                assert(self.pages_len() == pre.pages_len());
            }
            assert forall|f: int|
                0 <= f < old(self).addressor().frame_table().capacity() && old(self).addressor().frame_table().is_set(f) implies
            self.map.addressor.frame_table().is_set(f) by {
                assert(pre.addressor().frame_table().is_set(f));
            }
        }
        Ok(handle)
    }

    /// The page state of the given page index: `None` when the map does not
    /// cover it, otherwise whether any of its blocks is in use.
    pub fn get_page_state(&self, page_index: usize) -> (r: Option<bool>)
        ensures
            page_index < self.pages_len() ==> r == Some(!self.page_empty(page_index as int)),
            page_index >= self.pages_len() ==> r is None,
    {
        if page_index < self.map.pages.len() {
            Some(!self.map.pages[page_index].is_empty())
        } else {
            None
        }
    }

    /// Whether block `block` is in use: `None` when the map does not cover
    /// it. This is the block-level occupancy query a caller needs before it
    /// can hand a range to `dealloc`.
    pub fn block_state(&self, block: usize) -> (r: Option<bool>)
        ensures
            block < self.pages_len() * 64 ==> r == Some(self.block(block as int)),
            block >= self.pages_len() * 64 ==> r is None,
    {
        if block / 64 < self.map.pages.len() {
            proof {
                crate::bits::lemma_bit_index_split(block as int);
                assert(block < self.pages_len() * 64) by (nonlinear_arith)
                    requires
                        block as int / 64 < self.pages_len(),
                        block as int == (block as int / 64) * 64 + block as int % 64,
                        0 <= block as int % 64 < 64,
                ;
            }
            Some(self.block_get(block))
        } else {
            proof {
                crate::bits::lemma_bit_index_split(block as int);
                assert(block >= self.pages_len() * 64) by (nonlinear_arith)
                    requires
                        block as int / 64 >= self.pages_len(),
                        block as int == (block as int / 64) * 64 + block as int % 64,
                        0 <= block as int % 64 < 64,
                ;
            }
            None
        }
    }

    /// Where the map's own table lives: its first page index and its length
    /// in pages. Callers releasing memory must keep clear of it.
    pub fn table_extent(&self) -> (r: (usize, usize))
        ensures
            r.0 == self.table_page(),
            r.1 == self.table_pages(),
    {
        (self.map.table_page, self.map.pages.len() / 512)
    }

    /// The direct-mapped virtual address of a physical address: the mapper's
    /// physical-memory offset plus the address.
    pub fn physical_memory(&self, addr: crate::addr::Address<crate::addr::Physical>) -> (r:
        crate::addr::Address<crate::addr::Virtual>)
        requires
            addr.spec_get() + self.addressor().spec_mapped_offset() <= usize::MAX,
        ensures
            r.spec_get() == self.addressor().spec_mapped_offset() + addr.spec_get(),
    {
        let offset = self.map.addressor.mapped_offset();
        crate::addr::Address::<crate::addr::Virtual>::new(offset + addr.as_usize())
    }

    /// The attributes of a page's mapping, if it has one.
    pub fn get_page_attribs(&self, page: usize) -> (r: Option<crate::paging::PageAttributes>)
        ensures
            match self.addressor().spec_mapping(page as int) {
                Some(m) => r == Some(m.attributes),
                None => r is None,
            },
    {
        self.map.addressor.get_page_attribs(page)
    }

    /// Rewrite the attributes of a page's mapping; see
    /// [`VirtualAddressor::set_page_attribs`].
    pub fn set_page_attribs(
        &mut self,
        page: usize,
        attributes: crate::paging::PageAttributes,
        modify_mode: crate::paging::AttributeModify,
    )
        requires
            old(self).wf(),
        ensures
            final(self).wf(),
            final(self).pages_len() == old(self).pages_len(),
            forall|b: int| final(self).block(b) == old(self).block(b),
            match old(self).addressor().spec_mapping(page as int) {
                Some(m) => {
                    &&& final(self).addressor().spec_mapping(page as int) == Some(
                        crate::paging::Mapping {
                            frame: m.frame,
                            attributes: crate::paging::spec_modified_attributes(
                                m.attributes,
                                attributes,
                                modify_mode,
                            ),
                        },
                    )
                    &&& forall|p: int|
                        p != page as int ==> final(self).addressor().spec_mapping(p) == old(self).addressor().spec_mapping(p)
                },
                None => forall|p: int|
                    final(self).addressor().spec_mapping(p) == old(self).addressor().spec_mapping(
                        p,
                    ),
            },
    {
        self.map.addressor.set_page_attribs(page, attributes, modify_mode);
        proof {
            assert(self.map.pages == old(self).map.pages);
            assert forall|p: int| #[trigger] self.page_value(p) == old(self).page_value(p) by {}
            if self.pages_len() > 0 {
                assert(old(self).page_full(0));
                assert(self.page_full(0));
                assert forall|p: int|
                    self.table_page() <= p < self.table_page() + self.table_pages() implies
                    #[trigger] self.page_full(p) by {
                    assert(old(self).page_full(p));
                    assert(self.page_value(p) == old(self).page_value(p));
                }
            }
            assert forall|p: int|
                #[trigger] self.map.addressor.spec_mapping(p) is Some implies old(self).map.addressor.spec_mapping(p) is Some && self.map.addressor.spec_mapping(p)->0.frame
                == old(self).map.addressor.spec_mapping(p)->0.frame by {
                if p != page as int {
                    assert(self.map.addressor.spec_mapping(p) == old(self).map.addressor.spec_mapping(p));
                } else {
                    if old(self).map.addressor.spec_mapping(p) is None {
                        assert(self.map.addressor.spec_mapping(p) == old(self).map.addressor.spec_mapping(p));
                    }
                }
            }
            assert forall|p: int|
                #[trigger] old(self).map.addressor.spec_mapping(p) is Some implies
                self.map.addressor.spec_mapping(p) is Some by {
                if p != page as int {
                    assert(self.map.addressor.spec_mapping(p) == old(self).map.addressor.spec_mapping(p));
                }
            }
            assert forall|p: int| #[trigger] self.map.addressor.is_mapped(p) implies 0 <= p
                < self.pages_len() && !self.page_empty(p) by {
                assert(old(self).map.addressor.is_mapped(p));
                assert(self.page_value(p) == old(self).page_value(p));
            }
            assert forall|p: int|
                1 <= p < self.pages_len() && !(#[trigger] self.page_empty(p)) implies
                self.map.addressor.is_mapped(p) by {
                assert(self.page_value(p) == old(self).page_value(p));
                assert(!old(self).page_empty(p));
                assert(old(self).map.addressor.is_mapped(p));
                assert(old(self).map.addressor.spec_mapping(p) is Some);
            }
            assert forall|p1: int, p2: int|
                p1 != p2 && #[trigger] self.map.addressor.spec_mapping(p1) is Some
                    && #[trigger] self.map.addressor.spec_mapping(p2) is Some implies
                self.map.addressor.spec_mapping(p1)->0.frame != self.map.addressor.spec_mapping(
                p2,
            )->0.frame by {
                assert(old(self).map.addressor.spec_mapping(p1) is Some);
                assert(old(self).map.addressor.spec_mapping(p2) is Some);
            }
        }
    }
}

/// A freshly found free run is disjoint from every member of a whole set of
/// live allocations: each handle of `handles` is a `(start, length)` block
/// range wholly in use, so none can meet a run of free blocks.
pub proof fn lemma_fresh_run_disjoint_from_live_set(
    state: BlockAllocator,
    handles: Seq<(int, int)>,
    s2: int,
    c2: int,
)
    requires
        c2 >= 1,
        forall|k: int|
            0 <= k < handles.len() ==> (#[trigger] handles[k]).1 >= 1 && (forall|b: int|
                handles[k].0 <= b < handles[k].0 + handles[k].1 ==> state.block(b)),
        forall|b: int| s2 <= b < s2 + c2 ==> !state.block(b),
    ensures
        forall|k: int|
            0 <= k < handles.len() ==> (#[trigger] handles[k]).0 + handles[k].1 <= s2 || s2 + c2
                <= handles[k].0,
{
    assert forall|k: int|
        0 <= k < handles.len() implies (#[trigger] handles[k]).0 + handles[k].1 <= s2 || s2 + c2
        <= handles[k].0 by {
        lemma_live_allocations_disjoint(state, handles[k].0, handles[k].1, s2, c2);
    }
}

/// A run of blocks that are all in use and a run of free blocks cannot
/// overlap: a fresh allocation is disjoint from every live one.
pub proof fn lemma_live_allocations_disjoint(
    state: BlockAllocator,
    s1: int,
    c1: int,
    s2: int,
    c2: int,
)
    requires
        c1 >= 1,
        c2 >= 1,
        forall|b: int| s1 <= b < s1 + c1 ==> state.block(b),
        forall|b: int| s2 <= b < s2 + c2 ==> !state.block(b),
    ensures
        s1 + c1 <= s2 || s2 + c2 <= s1,
{
    if !(s1 + c1 <= s2 || s2 + c2 <= s1) {
        let b = if s1 >= s2 {
            s1
        } else {
            s2
        };
        assert(state.block(b));
        assert(!state.block(b));
    }
}

impl crate::malloc::MemoryAllocator for BlockAllocator {
    open spec fn inv(&self) -> bool {
        self.wf()
    }

    open spec fn offset_ok(&self, addr: int) -> bool {
        addr + self.addressor().spec_mapped_offset() <= usize::MAX
    }

    open spec fn dealloc_ok(&self, addr: int, size: int) -> bool {
        &&& addr / 64 >= 64
        &&& addr / 64 + spec_size_in_blocks(size) <= self.pages_len() * 64
        &&& forall|b: int| addr / 64 <= b < addr / 64 + spec_size_in_blocks(size) ==> self.block(b)
        &&& forall|b: int|
            addr / 64 <= b < addr / 64 + spec_size_in_blocks(size) ==> !self.is_table_block(b)
    }

    open spec fn against_ok(&self, frame_index: int, count: int) -> bool {
        &&& frame_index + count <= self.addressor().frame_table().frames()
        &&& forall|g: int|
            frame_index <= g < frame_index + count ==> self.addressor().frame_table().is_set(g)
        &&& forall|p: int|
            #[trigger] self.addressor().spec_mapping(p) is Some ==> !(frame_index
                <= self.addressor().spec_mapping(p)->0.frame < frame_index + count)
    }

    open spec fn identity_ok(&self, frame_index: int, count: int) -> bool {
        &&& frame_index + count <= self.addressor().frame_table().frames()
        &&& forall|g: int|
            frame_index <= g < frame_index + count ==> self.addressor().frame_table().is_set(g)
        &&& forall|p: int|
            #[trigger] self.addressor().spec_mapping(p) is Some ==> !(frame_index
                <= self.addressor().spec_mapping(p)->0.frame < frame_index + count && (frame_index
                + count > self.pages_len() || self.page_empty(
                self.addressor().spec_mapping(p)->0.frame as int,
            )))
    }

    open spec fn contiguous_ok(&self, count: int) -> bool {
        self.addressor().frame_table().frames() * PAGE_SIZE <= 0x0010_0000_0000_0000
    }

    open spec fn page_covered(&self, page_index: int) -> bool {
        page_index < self.pages_len()
    }

    open spec fn page_in_use(&self, page_index: int) -> bool {
        !self.page_empty(page_index)
    }

    fn physical_memory(&self, addr: crate::addr::Address<crate::addr::Physical>) -> (r:
        crate::addr::Address<crate::addr::Virtual>) {
        self.physical_memory(addr)
    }

    fn allocate(&mut self, size: usize, align: Option<usize>) -> (r: Result<
        Alloc<u8>,
        AllocError,
    >) {
        self.allocate(size, align)
    }

    fn alloc_contiguous(&mut self, count: usize) -> (r: Result<
        (crate::addr::Address<crate::addr::Physical>, Alloc<u8>),
        AllocError,
    >) {
        self.alloc_contiguous(count)
    }

    fn alloc_against(&mut self, frame_index: usize, count: usize) -> (r: Result<
        Alloc<u8>,
        AllocError,
    >) {
        self.alloc_against(frame_index, count)
    }

    fn alloc_identity(&mut self, frame_index: usize, count: usize) -> (r: Result<
        Alloc<u8>,
        AllocError,
    >) {
        self.alloc_identity(frame_index, count)
    }

    fn dealloc(&mut self, addr: usize, size: usize) {
        self.dealloc(addr, size)
    }

    fn get_page_state(&self, page_index: usize) -> (r: Option<bool>) {
        self.get_page_state(page_index)
    }
}

} // verus!
